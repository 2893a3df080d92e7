//! The blocks of dependencies that an override adds to a package: one for
//! each target specification that the override names, with the labels that
//! it gives for that specification.

use vstd::prelude::*;
use crate::context::{
    BuildableDependency, CrateDependencyContext, CrateTargetedDepContext, DependenciesModel,
    DependencyModel, TargetedModel,
};
use crate::error::{ConsolidationError, ErrorModel};
use crate::ordered::{ascending_seq, lemma_deep_dom, lemma_keys_of, OrderedMap, OrderedSet};
use crate::targets::{platforms, resolvable, targeted_dep_context_for};

verus! {

/// The dependency that stands for a label: a target that is already built,
/// with no crate behind it, hence without a name and at version zero.
pub open spec fn label_dependency(label: Seq<char>) -> DependencyModel {
    DependencyModel {
        name: Seq::empty(),
        version: "0.0.0"@,
        buildable_target: label,
        is_proc_macro: false,
    }
}

/// The dependencies that stand for `labels`.
pub open spec fn label_dependencies(labels: Seq<Seq<char>>) -> Set<DependencyModel> {
    Set::new(
        |d: DependencyModel|
            labels.contains(d.buildable_target) && d == label_dependency(d.buildable_target),
    )
}

/// The labels that `table` holds for `target`; none where it holds no entry.
pub open spec fn labels_for(
    table: Map<Seq<char>, Seq<Seq<char>>>,
    target: Seq<char>,
) -> Seq<Seq<char>> {
    if table.contains_key(target) {
        table[target]
    } else {
        Seq::empty()
    }
}

/// The first of `order` that selects no platform.
pub open spec fn first_unresolved(
    order: Seq<Seq<char>>,
    filter: Set<Seq<char>>,
    matches: Map<Seq<char>, Seq<Seq<char>>>,
) -> Option<Seq<char>>
    decreases order.len(),
{
    if order.len() == 0 {
        None
    } else if !resolvable(order[0], filter, matches) {
        Some(order[0])
    } else {
        first_unresolved(order.drop_first(), filter, matches)
    }
}

/// Labels of extra dependencies by target specification, one table for each
/// set of dependencies that they go to.
pub struct LabelTables {
    pub deps: Map<Seq<char>, Seq<Seq<char>>>,
    pub data_deps: Map<Seq<char>, Seq<Seq<char>>>,
    pub build_deps: Map<Seq<char>, Seq<Seq<char>>>,
    pub build_data_deps: Map<Seq<char>, Seq<Seq<char>>>,
}

impl LabelTables {
    /// Every target specification that some table has an entry for.
    pub open spec fn targets(self) -> Set<Seq<char>> {
        self.deps.dom() + self.data_deps.dom() + self.build_deps.dom() + self.build_data_deps.dom()
    }

    /// The target specifications in the order in which they are resolved:
    /// table after table, each in ascending order.
    pub open spec fn order(self) -> Seq<Seq<char>> {
        ascending_seq::<String>(self.deps.dom()) + ascending_seq::<String>(self.data_deps.dom())
            + ascending_seq::<String>(self.build_deps.dom()) + ascending_seq::<String>(
            self.build_data_deps.dom(),
        )
    }

    /// The block of `target`: the platforms it selects, and in each of the
    /// four sets the dependencies that stand for the labels of its table.
    pub open spec fn block(
        self,
        target: Seq<char>,
        filter: Set<Seq<char>>,
        matches: Map<Seq<char>, Seq<Seq<char>>>,
    ) -> TargetedModel {
        TargetedModel {
            target,
            deps: DependenciesModel {
                dependencies: label_dependencies(labels_for(self.deps, target)),
                proc_macro_dependencies: Set::empty(),
                data_dependencies: label_dependencies(labels_for(self.data_deps, target)),
                build_dependencies: label_dependencies(labels_for(self.build_deps, target)),
                build_proc_macro_dependencies: Set::empty(),
                build_data_dependencies: label_dependencies(
                    labels_for(self.build_data_deps, target),
                ),
                dev_dependencies: Set::empty(),
                aliased_dependencies: Map::empty(),
            },
            platform_targets: platforms(target, filter, matches),
        }
    }

    /// One block for each target specification, in ascending order of the
    /// specifications.
    pub open spec fn blocks(
        self,
        filter: Set<Seq<char>>,
        matches: Map<Seq<char>, Seq<Seq<char>>>,
    ) -> Seq<TargetedModel> {
        ascending_seq::<String>(self.targets()).map_values(
            |target: Seq<char>| self.block(target, filter, matches),
        )
    }
}

/// The text of version zero, as `semver` writes it. `Version::new(0, 0, 0)`
/// has no pre-release and no build part, and `Version`'s `Display` then writes
/// the three numbers with a dot between them.
#[verifier::external_body]
fn zero_version() -> (text: String)
    ensures
        text@ == "0.0.0"@,
{
    semver::Version::new(0, 0, 0).to_string()
}

/// The dependency that stands for the label `dep`.
pub fn into_buildable_dependency(dep: &String) -> (dependency: BuildableDependency)
    ensures
        dependency.deep_view() == label_dependency(dep@),
{
    BuildableDependency {
        name: String::new(),
        version: zero_version(),
        buildable_target: dep.clone(),
        is_proc_macro: false,
    }
}

/// Puts the dependency of each label into `set`.
fn extend_with_labels(set: &mut OrderedSet<BuildableDependency>, labels: &Vec<String>)
    ensures
        final(set)@ == old(set)@ + label_dependencies(labels.deep_view()),
{
    let ghost all = labels.deep_view();
    let mut i: usize = 0;
    assert(set@ =~= old(set)@ + label_dependencies(all.take(0)));
    while i < labels.len()
        invariant
            i <= labels.len(),
            all == labels.deep_view(),
            set@ == old(set)@ + label_dependencies(all.take(i as int)),
        decreases labels.len() - i,
    {
        set.insert(into_buildable_dependency(&labels[i]));
        proof {
            let now = all.take(i + 1);
            let earlier = all.take(i as int);
            assert(now =~= earlier.push(all[i as int]));
            assert forall|d: DependencyModel|
                label_dependencies(now).contains(d) <==> label_dependencies(earlier).contains(d)
                    || d == label_dependency(all[i as int]) by {
                if earlier.contains(d.buildable_target) {
                    let j = choose|j: int| 0 <= j < earlier.len() && earlier[j] == d.buildable_target;
                    assert(now[j] == d.buildable_target);
                }
                if now.contains(d.buildable_target) {
                    let j = choose|j: int| 0 <= j < now.len() && now[j] == d.buildable_target;
                    if j < i {
                        assert(earlier[j] == d.buildable_target);
                    }
                }
                assert(now[i as int] == all[i as int]);
            }
            assert(set@ =~= old(set)@ + label_dependencies(now));
        }
        i += 1;
    }
    assert(all.take(i as int) =~= all);
}

/// The set of dependencies that a table of labels goes to.
#[derive(Clone, Copy, Debug, PartialEq, Eq, Structural)]
pub enum DependencyKind {
    Plain,
    Data,
    BuildScript,
    BuildScriptData,
}

impl LabelTables {
    /// Tables without an entry.
    pub open spec fn empty() -> LabelTables {
        LabelTables {
            deps: Map::empty(),
            data_deps: Map::empty(),
            build_deps: Map::empty(),
            build_data_deps: Map::empty(),
        }
    }

    /// The table that feeds the set of `kind`.
    pub open spec fn table(self, kind: DependencyKind) -> Map<Seq<char>, Seq<Seq<char>>> {
        match kind {
            DependencyKind::Plain => self.deps,
            DependencyKind::Data => self.data_deps,
            DependencyKind::BuildScript => self.build_deps,
            DependencyKind::BuildScriptData => self.build_data_deps,
        }
    }

    /// These tables with `table` in place of the one of `kind`.
    pub open spec fn with(
        self,
        kind: DependencyKind,
        table: Map<Seq<char>, Seq<Seq<char>>>,
    ) -> LabelTables {
        match kind {
            DependencyKind::Plain => LabelTables { deps: table, ..self },
            DependencyKind::Data => LabelTables { data_deps: table, ..self },
            DependencyKind::BuildScript => LabelTables { build_deps: table, ..self },
            DependencyKind::BuildScriptData => LabelTables { build_data_deps: table, ..self },
        }
    }

    /// The block of each target specification, by specification.
    pub open spec fn block_map(
        self,
        filter: Set<Seq<char>>,
        matches: Map<Seq<char>, Seq<Seq<char>>>,
    ) -> Map<Seq<char>, TargetedModel> {
        Map::new(
            |target: Seq<char>| self.targets().contains(target),
            |target: Seq<char>| self.block(target, filter, matches),
        )
    }
}

/// Where every earlier specification selects a platform and the one at `i`
/// selects none, that one is the first unresolved.
pub proof fn lemma_first_unresolved_at(
    order: Seq<Seq<char>>,
    filter: Set<Seq<char>>,
    matches: Map<Seq<char>, Seq<Seq<char>>>,
    i: int,
)
    requires
        0 <= i < order.len(),
        forall|j: int| 0 <= j < i ==> resolvable(#[trigger] order[j], filter, matches),
        !resolvable(order[i], filter, matches),
    ensures
        first_unresolved(order, filter, matches) == Some(order[i]),
    decreases i,
{
    if i > 0 {
        assert(resolvable(order[0], filter, matches));
        let rest = order.drop_first();
        assert forall|j: int| 0 <= j < i - 1 implies resolvable(
            #[trigger] rest[j],
            filter,
            matches,
        ) by {
            assert(rest[j] == order[j + 1]);
        }
        lemma_first_unresolved_at(rest, filter, matches, i - 1);
    }
}

/// There is no first unresolved specification exactly where every one
/// selects a platform.
pub proof fn lemma_none_unresolved(
    order: Seq<Seq<char>>,
    filter: Set<Seq<char>>,
    matches: Map<Seq<char>, Seq<Seq<char>>>,
)
    ensures
        first_unresolved(order, filter, matches) is None <==> forall|j: int|
            0 <= j < order.len() ==> resolvable(#[trigger] order[j], filter, matches),
        first_unresolved(order, filter, matches) is Some ==> order.contains(
            first_unresolved(order, filter, matches)->Some_0,
        ) && !resolvable(first_unresolved(order, filter, matches)->Some_0, filter, matches),
    decreases order.len(),
{
    if order.len() > 0 {
        let rest = order.drop_first();
        lemma_none_unresolved(rest, filter, matches);
        if resolvable(order[0], filter, matches) {
            if first_unresolved(rest, filter, matches) is None {
                assert forall|j: int| 0 <= j < order.len() implies resolvable(
                    #[trigger] order[j],
                    filter,
                    matches,
                ) by {
                    if j > 0 {
                        assert(rest[j - 1] == order[j]);
                    }
                }
            } else {
                let t = first_unresolved(rest, filter, matches)->Some_0;
                let j = choose|j: int| 0 <= j < rest.len() && rest[j] == t;
                assert(order[j + 1] == t);
            }
        } else {
            assert(order[0] == order[0]);
        }
    }
}

/// The first unresolved specification of two orders in a row is that of the
/// first order, or that of the second where the first has none.
pub proof fn lemma_first_unresolved_concat(
    a: Seq<Seq<char>>,
    b: Seq<Seq<char>>,
    filter: Set<Seq<char>>,
    matches: Map<Seq<char>, Seq<Seq<char>>>,
)
    ensures
        first_unresolved(a + b, filter, matches) == if first_unresolved(a, filter, matches)
            is Some {
            first_unresolved(a, filter, matches)
        } else {
            first_unresolved(b, filter, matches)
        },
    decreases a.len(),
{
    if a.len() == 0 {
        assert(a + b =~= b);
    } else {
        assert((a + b).drop_first() =~= a.drop_first() + b);
        lemma_first_unresolved_concat(a.drop_first(), b, filter, matches);
    }
}

/// Puts the dependencies of `labels` into the set of `kind`.
fn extend_kind(deps: &mut CrateDependencyContext, kind: DependencyKind, labels: &Vec<String>)
    ensures
        final(deps).deep_view() == match kind {
            DependencyKind::Plain => DependenciesModel {
                dependencies: old(deps).deep_view().dependencies + label_dependencies(
                    labels.deep_view(),
                ),
                ..old(deps).deep_view()
            },
            DependencyKind::Data => DependenciesModel {
                data_dependencies: old(deps).deep_view().data_dependencies + label_dependencies(
                    labels.deep_view(),
                ),
                ..old(deps).deep_view()
            },
            DependencyKind::BuildScript => DependenciesModel {
                build_dependencies: old(deps).deep_view().build_dependencies + label_dependencies(
                    labels.deep_view(),
                ),
                ..old(deps).deep_view()
            },
            DependencyKind::BuildScriptData => DependenciesModel {
                build_data_dependencies: old(deps).deep_view().build_data_dependencies
                    + label_dependencies(labels.deep_view()),
                ..old(deps).deep_view()
            },
        },
{
    match kind {
        DependencyKind::Plain => extend_with_labels(&mut deps.dependencies, labels),
        DependencyKind::Data => extend_with_labels(&mut deps.data_dependencies, labels),
        DependencyKind::BuildScript => extend_with_labels(&mut deps.build_dependencies, labels),
        DependencyKind::BuildScriptData => extend_with_labels(
            &mut deps.build_data_dependencies,
            labels,
        ),
    }
}

/// Works the table `source` of `kind` into `blocks`: each of its target
/// specifications gets a block, unless it has one, and the block gets the
/// dependencies of its labels. Stops at the first specification that selects
/// no platform.
fn add_table(
    blocks: &mut OrderedMap<String, CrateTargetedDepContext>,
    kind: DependencyKind,
    source: &OrderedMap<String, Vec<String>>,
    filter: &OrderedSet<String>,
    matches: &OrderedMap<String, Vec<String>>,
    Ghost(done): Ghost<LabelTables>,
) -> (outcome: Result<(), ConsolidationError>)
    requires
        old(blocks).deep_view() == done.block_map(filter@, matches.deep_view()),
        done.table(kind) == Map::<Seq<char>, Seq<Seq<char>>>::empty(),
        forall|t: Seq<char>|
            done.targets().contains(t) ==> resolvable(t, filter@, matches.deep_view()),
    ensures
        source.wf(),
        match first_unresolved(source.keys(), filter@, matches.deep_view()) {
            Some(t) => outcome is Err && outcome->Err_0.deep_view() == (
            ErrorModel::UnresolvedTarget { target: t }),
            None => outcome is Ok && final(blocks).deep_view() == done.with(
                kind,
                source.deep_view(),
            ).block_map(filter@, matches.deep_view()) && forall|t: Seq<char>|
                done.with(kind, source.deep_view()).targets().contains(t) ==> resolvable(
                    t,
                    filter@,
                    matches.deep_view(),
                ),
        },
{
    let ghost keys = source.keys();
    let ghost table = source.deep_view();
    let ghost f = filter@;
    let ghost m = matches.deep_view();
    let n = source.len();
    let mut i: usize = 0;
    proof {
        assert(table.restrict(keys.take(0).to_set()) =~= Map::empty());
        assert(done.with(kind, Map::empty()) == done);
    }
    while i < n
        invariant
            i <= n,
            n == keys.len(),
            source.wf(),
            keys == source.keys(),
            table == source.deep_view(),
            f == filter@,
            m == matches.deep_view(),
            done.table(kind) == Map::<Seq<char>, Seq<Seq<char>>>::empty(),
            forall|t: Seq<char>| done.targets().contains(t) ==> resolvable(t, f, m),
            forall|j: int| 0 <= j < i ==> resolvable(#[trigger] keys[j], f, m),
            blocks.deep_view() == done.with(
                kind,
                table.restrict(keys.take(i as int).to_set()),
            ).block_map(f, m),
        decreases n - i,
    {
        let target = source.key_at(i);
        let labels = source.value_at(i);
        let ghost t = target@;
        let ghost earlier = done.with(kind, table.restrict(keys.take(i as int).to_set()));
        let ghost later = done.with(kind, table.restrict(keys.take(i + 1).to_set()));
        let ghost blocks0 = blocks.deep_view();
        let ghost held0 = blocks@;
        proof {
            assert(blocks0.contains_key(t) <==> held0.contains_key(t));
            assert(blocks0.contains_key(t) <==> earlier.targets().contains(t));
            if held0.contains_key(t) {
                assert(blocks0[t] == held0[t].deep_view());
                assert(blocks0[t] == earlier.block(t, f, m));
            }
            lemma_keys_of::<String, Vec<String>>(source, t);
            assert(keys[i as int] == t);
            assert(table.contains_key(t) && table[t] == labels.deep_view());
            // The table of this kind has held nothing for `t` so far.
            assert(!keys.take(i as int).contains(t)) by {
                if keys.take(i as int).contains(t) {
                    let j = choose|j: int|
                        0 <= j < keys.take(i as int).len() && keys.take(i as int)[j] == t;
                    assert(keys[j] == keys[i as int]);
                }
            }
            keys.take(i as int).lemma_push_to_set_commute(t);
            assert(keys.take(i + 1) =~= keys.take(i as int).push(t));
            assert(table.restrict(keys.take(i + 1).to_set()) =~= table.restrict(
                keys.take(i as int).to_set(),
            ).insert(t, table[t]));
            assert(labels_for(earlier.table(kind), t) == Seq::<Seq<char>>::empty());
            assert(label_dependencies(Seq::<Seq<char>>::empty()) =~= Set::empty());
        }
        let held = blocks.remove(target);
        let mut block = match held {
            Some(block) => block,
            None => {
                match targeted_dep_context_for(target.as_str(), filter, matches) {
                    Ok(block) => {
                        proof {
                            assert(!earlier.targets().contains(t));
                            assert(block.deep_view().deps =~= earlier.block(t, f, m).deps);
                        }
                        block
                    },
                    Err(error) => {
                        proof {
                            lemma_first_unresolved_at(keys, f, m, i as int);
                        }
                        return Err(error);
                    },
                }
            },
        };
        proof {
            assert(block.deep_view() == earlier.block(t, f, m));
            if earlier.targets().contains(t) {
                if done.targets().contains(t) {
                } else {
                    assert(keys.take(i as int).to_set().contains(t));
                }
            }
            assert(resolvable(t, f, m));
        }
        let ghost deps0 = block.deep_view().deps;
        extend_kind(&mut block.deps, kind, labels);
        proof {
            let fresh = label_dependencies(labels.deep_view());
            assert(labels_for(later.table(kind), t) == labels.deep_view());
            assert(Set::<DependencyModel>::empty() + fresh =~= fresh);
            assert(deps0 == earlier.block(t, f, m).deps);
            match kind {
                DependencyKind::Plain => {
                    assert(deps0.dependencies =~= Set::empty());
                    assert(later.data_deps == earlier.data_deps);
                    assert(later.build_deps == earlier.build_deps);
                    assert(later.build_data_deps == earlier.build_data_deps);
                },
                DependencyKind::Data => {
                    assert(deps0.data_dependencies =~= Set::empty());
                    assert(later.deps == earlier.deps);
                    assert(later.build_deps == earlier.build_deps);
                    assert(later.build_data_deps == earlier.build_data_deps);
                },
                DependencyKind::BuildScript => {
                    assert(deps0.build_dependencies =~= Set::empty());
                    assert(later.deps == earlier.deps);
                    assert(later.data_deps == earlier.data_deps);
                    assert(later.build_data_deps == earlier.build_data_deps);
                },
                DependencyKind::BuildScriptData => {
                    assert(deps0.build_data_dependencies =~= Set::empty());
                    assert(later.deps == earlier.deps);
                    assert(later.data_deps == earlier.data_deps);
                    assert(later.build_deps == earlier.build_deps);
                },
            }
            assert(block.deep_view().deps =~= later.block(t, f, m).deps);
            assert(block.deep_view() == later.block(t, f, m));
        }
        blocks.insert(target.clone(), block);
        proof {
            assert(blocks.deep_view() =~= blocks0.remove(t).insert(t, later.block(t, f, m)));
            assert(later.targets() =~= earlier.targets().insert(t));
            assert forall|q: Seq<char>| q != t implies #[trigger] later.block(q, f, m)
                == earlier.block(q, f, m) by {
                assert(labels_for(later.table(kind), q) == labels_for(earlier.table(kind), q));
            }
            assert(blocks.deep_view() =~= later.block_map(f, m));
        }
        i += 1;
    }
    proof {
        assert(keys.take(i as int) =~= keys);
        assert(table.restrict(keys.to_set()) =~= table) by {
            assert forall|k: Seq<char>| table.contains_key(k) implies keys.to_set().contains(
                k,
            ) by {
                lemma_keys_of::<String, Vec<String>>(source, k);
            }
        }
        lemma_none_unresolved(keys, f, m);
        let all = done.with(kind, table);
        assert forall|q: Seq<char>| all.targets().contains(q) implies resolvable(q, f, m) by {
            if !done.targets().contains(q) {
                lemma_keys_of::<String, Vec<String>>(source, q);
                assert(table.contains_key(q));
                let j = choose|j: int| 0 <= j < keys.len() && keys[j] == q;
                assert(resolvable(keys[j], f, m));
            }
        }
    }
    Ok(())
}

/// The blocks that the four tables of labels ask for, in ascending order of
/// their target specifications, or the error that names the first
/// specification, in the order in which they are resolved, that selects no
/// platform.
pub fn extra_deps_as_targeted_deps(
    target_triples_filter: &OrderedSet<String>,
    matches: &OrderedMap<String, Vec<String>>,
    extra_bazel_deps: &OrderedMap<String, Vec<String>>,
    extra_bazel_data_deps: &OrderedMap<String, Vec<String>>,
    extra_build_script_bazel_deps: &OrderedMap<String, Vec<String>>,
    extra_build_script_bazel_data_deps: &OrderedMap<String, Vec<String>>,
) -> (extra: Result<Vec<CrateTargetedDepContext>, ConsolidationError>)
    ensures
        ({
            let tables = LabelTables {
                deps: extra_bazel_deps.deep_view(),
                data_deps: extra_bazel_data_deps.deep_view(),
                build_deps: extra_build_script_bazel_deps.deep_view(),
                build_data_deps: extra_build_script_bazel_data_deps.deep_view(),
            };
            let filter = target_triples_filter@;
            match first_unresolved(tables.order(), filter, matches.deep_view()) {
                Some(t) => extra is Err && extra->Err_0.deep_view() == (
                ErrorModel::UnresolvedTarget { target: t }),
                None => extra is Ok && extra->Ok_0.deep_view() == tables.blocks(
                    filter,
                    matches.deep_view(),
                ),
            }
        }),
{
    let ghost f = target_triples_filter@;
    let ghost m = matches.deep_view();
    let ghost tables = LabelTables {
        deps: extra_bazel_deps.deep_view(),
        data_deps: extra_bazel_data_deps.deep_view(),
        build_deps: extra_build_script_bazel_deps.deep_view(),
        build_data_deps: extra_build_script_bazel_data_deps.deep_view(),
    };
    let ghost t0 = LabelTables::empty();
    let ghost t1 = t0.with(DependencyKind::Plain, tables.deps);
    let ghost t2 = t1.with(DependencyKind::Data, tables.data_deps);
    let ghost t3 = t2.with(DependencyKind::BuildScript, tables.build_deps);
    let ghost k1 = extra_bazel_deps.keys();
    let ghost k2 = extra_bazel_data_deps.keys();
    let ghost k3 = extra_build_script_bazel_deps.keys();
    let ghost k4 = extra_build_script_bazel_data_deps.keys();
    let mut blocks: OrderedMap<String, CrateTargetedDepContext> = OrderedMap::new();
    proof {
        assert(blocks.deep_view() =~= t0.block_map(f, m));
        assert(t3.with(DependencyKind::BuildScriptData, tables.build_data_deps) == tables);
        lemma_first_unresolved_concat(k1 + k2 + k3, k4, f, m);
        lemma_first_unresolved_concat(k1 + k2, k3, f, m);
        lemma_first_unresolved_concat(k1, k2, f, m);
    }
    proof {
        use_type_invariant(extra_bazel_deps);
        use_type_invariant(extra_bazel_data_deps);
        use_type_invariant(extra_build_script_bazel_deps);
        use_type_invariant(extra_build_script_bazel_data_deps);
        extra_bazel_deps.lemma_wf();
        extra_bazel_data_deps.lemma_wf();
        extra_build_script_bazel_deps.lemma_wf();
        extra_build_script_bazel_data_deps.lemma_wf();
        lemma_deep_dom::<String, Vec<String>>(extra_bazel_deps);
        lemma_deep_dom::<String, Vec<String>>(extra_bazel_data_deps);
        lemma_deep_dom::<String, Vec<String>>(extra_build_script_bazel_deps);
        lemma_deep_dom::<String, Vec<String>>(extra_build_script_bazel_data_deps);
        assert(tables.order() == k1 + k2 + k3 + k4);
    }
    match add_table(
        &mut blocks,
        DependencyKind::Plain,
        extra_bazel_deps,
        target_triples_filter,
        matches,
        Ghost(t0),
    ) {
        Err(error) => { return Err(error); },
        Ok(()) => {},
    }
    match add_table(
        &mut blocks,
        DependencyKind::Data,
        extra_bazel_data_deps,
        target_triples_filter,
        matches,
        Ghost(t1),
    ) {
        Err(error) => { return Err(error); },
        Ok(()) => {},
    }
    match add_table(
        &mut blocks,
        DependencyKind::BuildScript,
        extra_build_script_bazel_deps,
        target_triples_filter,
        matches,
        Ghost(t2),
    ) {
        Err(error) => { return Err(error); },
        Ok(()) => {},
    }
    match add_table(
        &mut blocks,
        DependencyKind::BuildScriptData,
        extra_build_script_bazel_data_deps,
        target_triples_filter,
        matches,
        Ghost(t3),
    ) {
        Err(error) => { return Err(error); },
        Ok(()) => {},
    }
    let ghost keys = blocks.keys();
    let ghost held = blocks@;
    proof {
        use_type_invariant(&blocks);
        blocks.lemma_wf();
        lemma_deep_dom::<String, CrateTargetedDepContext>(&blocks);
        assert(blocks.deep_view().dom() =~= tables.targets());
        assert(keys == ascending_seq::<String>(tables.targets()));
    }
    let extra = blocks.into_values();
    proof {
        let wanted = tables.blocks(f, m);
        assert(extra.deep_view().len() == wanted.len());
        assert forall|i: int| 0 <= i < wanted.len() implies extra.deep_view()[i] == wanted[i] by {
            assert(held.contains_key(keys[i]));
            assert(extra@[i] == held[keys[i]]);
            assert(held.map_values(|b: CrateTargetedDepContext| b.deep_view())[keys[i]]
                == extra@[i].deep_view());
        }
        assert(extra.deep_view() =~= wanted);
    }
    Ok(extra)
}

} // verus!
