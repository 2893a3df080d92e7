//! The consolidation of a resolved graph with the overrides of a run.

use std::collections::{BTreeMap, BTreeSet};
use vstd::prelude::*;
use crate::context::{CrateContext, PackageModel};
use crate::duplicates::{duplicate_sources, validate};
use crate::error::{ConsolidationError, ErrorModel};
use crate::ordered::{OrderedMap, OrderedSet};
use crate::overrides::{
    apply_override, overridden, unresolved_in, ConsolidatorConfig, OverrideModel,
};

verus! {

/// Some package before place `i` has the name of the package at `i`.
pub open spec fn name_seen_before(packages: Seq<PackageModel>, i: int) -> bool {
    exists|j: int| 0 <= j < i && (#[trigger] packages[j]).pkg_name == packages[i].pkg_name
}

/// The override that the package at place `i` claims: the one under its
/// name, unless an earlier package of that name has claimed it.
pub open spec fn claimed(
    config: Map<Seq<char>, OverrideModel>,
    packages: Seq<PackageModel>,
    i: int,
) -> Option<OverrideModel> {
    if config.contains_key(packages[i].pkg_name) && !name_seen_before(packages, i) {
        Some(config[packages[i].pkg_name])
    } else {
        None
    }
}

/// The target specification that stops consolidation at the package at
/// place `i`, if one does.
pub open spec fn stop_at(
    config: Map<Seq<char>, OverrideModel>,
    packages: Seq<PackageModel>,
    filter: Set<Seq<char>>,
    matches: Map<Seq<char>, Seq<Seq<char>>>,
    i: int,
) -> Option<Seq<char>> {
    match claimed(config, packages, i) {
        Some(record) => unresolved_in(record, filter, matches),
        None => None,
    }
}

/// The target specification that stops consolidation within the first
/// `upto` packages: that of the first package that has one.
pub open spec fn first_stop(
    config: Map<Seq<char>, OverrideModel>,
    packages: Seq<PackageModel>,
    filter: Set<Seq<char>>,
    matches: Map<Seq<char>, Seq<Seq<char>>>,
    upto: int,
) -> Option<Seq<char>>
    decreases upto,
{
    if upto <= 0 {
        None
    } else {
        match first_stop(config, packages, filter, matches, upto - 1) {
            Some(target) => Some(target),
            None => stop_at(config, packages, filter, matches, upto - 1),
        }
    }
}

/// The package at place `i` as consolidation leaves it: with the override it
/// claims applied, or as it was where it claims none.
pub open spec fn settled(
    config: Map<Seq<char>, OverrideModel>,
    packages: Seq<PackageModel>,
    filter: Set<Seq<char>>,
    matches: Map<Seq<char>, Seq<Seq<char>>>,
    i: int,
) -> PackageModel {
    match claimed(config, packages, i) {
        Some(record) => overridden(packages[i], record, filter, matches),
        None => packages[i],
    }
}

/// What consolidation makes of `packages`. Duplicates are reported before
/// anything else is looked at; then the first target specification that
/// selects no platform; else every package comes out settled, in its place.
pub open spec fn consolidated(
    config: Map<Seq<char>, OverrideModel>,
    packages: Seq<PackageModel>,
    filter: Set<Seq<char>>,
    matches: Map<Seq<char>, Seq<Seq<char>>>,
) -> Result<Seq<PackageModel>, ErrorModel> {
    if duplicate_sources(packages).len() > 0 {
        Err(ErrorModel::DuplicateSources { duplicates: duplicate_sources(packages) })
    } else {
        match first_stop(config, packages, filter, matches, packages.len() as int) {
            Some(target) => Err(ErrorModel::UnresolvedTarget { target }),
            None => Ok(
                Seq::new(packages.len(), |i: int| settled(config, packages, filter, matches, i)),
            ),
        }
    }
}

/// What the renderer is given: the consolidated packages, and what came with
/// the graph and is handed on as it came.
pub struct RendererInput<R, M> {
    pub render_config: R,
    pub digest: String,
    pub resolved_packages: Vec<CrateContext>,
    pub member_packages_version_mapping: M,
    pub label_to_crates: BTreeMap<String, BTreeSet<String>>,
}

/// A resolved graph with all that its consolidation needs. `R` is the
/// renderer's configuration and `M` the mapping of member packages to
/// versions; consolidation reads neither.
pub struct Consolidator<R, M> {
    consolidator_config: ConsolidatorConfig,
    render_config: R,
    digest: String,
    target_triples: OrderedSet<String>,
    target_matches: OrderedMap<String, Vec<String>>,
    resolved_packages: Vec<CrateContext>,
    member_packages_version_mapping: M,
    label_to_crates: BTreeMap<String, BTreeSet<String>>,
}

impl<R, M> Consolidator<R, M> {
    /// The overrides, by crate name.
    pub closed spec fn config(&self) -> Map<Seq<char>, OverrideModel> {
        self.consolidator_config.deep_view()
    }

    /// The renderer's configuration, which is handed on.
    pub closed spec fn render_config(&self) -> R {
        self.render_config
    }

    /// The digest of the graph, which is handed on.
    pub closed spec fn digest(&self) -> String {
        self.digest
    }

    /// The platforms that the run is for.
    pub closed spec fn target_triples(&self) -> Set<Seq<char>> {
        self.target_triples@
    }

    /// The platforms on which each predicate was found to hold.
    pub closed spec fn target_matches(&self) -> Map<Seq<char>, Seq<Seq<char>>> {
        self.target_matches.deep_view()
    }

    /// The packages of the graph, in their order.
    pub closed spec fn resolved_packages(&self) -> Vec<CrateContext> {
        self.resolved_packages
    }

    /// The versions of the member packages, which are handed on.
    pub closed spec fn member_packages_version_mapping(&self) -> M {
        self.member_packages_version_mapping
    }

    /// The crates behind each label, which are handed on.
    pub closed spec fn label_to_crates(&self) -> BTreeMap<String, BTreeSet<String>> {
        self.label_to_crates
    }

    /// `target_matches` holds, for each predicate among the target
    /// specifications of the overrides, the platforms on which it holds, as
    /// the platform registry evaluated it. A predicate without an entry counts
    /// as holding nowhere.
    pub fn new(
        consolidator_config: ConsolidatorConfig,
        render_config: R,
        digest: String,
        target_triples: OrderedSet<String>,
        target_matches: OrderedMap<String, Vec<String>>,
        resolved_packages: Vec<CrateContext>,
        member_packages_version_mapping: M,
        label_to_crates: BTreeMap<String, BTreeSet<String>>,
    ) -> (consolidator: Self)
        ensures
            consolidator.config() == consolidator_config.deep_view(),
            consolidator.render_config() == render_config,
            consolidator.digest() == digest,
            consolidator.target_triples() == target_triples@,
            consolidator.target_matches() == target_matches.deep_view(),
            consolidator.resolved_packages() == resolved_packages,
            consolidator.member_packages_version_mapping() == member_packages_version_mapping,
            consolidator.label_to_crates() == label_to_crates,
    {
        Consolidator {
            consolidator_config,
            render_config,
            digest,
            target_triples,
            target_matches,
            resolved_packages,
            member_packages_version_mapping,
            label_to_crates,
        }
    }

    /// Checks the graph for duplicates, applies to each package the override
    /// that it claims, and hands on the rest as it came. An override under a
    /// name that no package has is left unused.
    pub fn consolidate(self) -> (rendering: Result<RendererInput<R, M>, ConsolidationError>)
        ensures
            match consolidated(
                self.config(),
                self.resolved_packages().deep_view(),
                self.target_triples(),
                self.target_matches(),
            ) {
                Ok(packages) => rendering is Ok && rendering->Ok_0.resolved_packages.deep_view()
                    == packages && rendering->Ok_0.render_config == self.render_config()
                    && rendering->Ok_0.digest == self.digest()
                    && rendering->Ok_0.member_packages_version_mapping
                    == self.member_packages_version_mapping() && rendering->Ok_0.label_to_crates
                    == self.label_to_crates(),
                Err(error) => rendering is Err && rendering->Err_0.deep_view() == error,
            },
    {
        let Consolidator {
            consolidator_config,
            render_config,
            digest,
            target_triples,
            target_matches,
            mut resolved_packages,
            member_packages_version_mapping,
            label_to_crates,
        } = self;
        let ghost config = consolidator_config.deep_view();
        let ghost start = resolved_packages.deep_view();
        let ghost f = target_triples@;
        let ghost m = target_matches.deep_view();

        match validate(&resolved_packages) {
            Err(error) => { return Err(error); },
            Ok(()) => {},
        }

        let mut overrides = consolidator_config.overrides;
        let n = resolved_packages.len();
        let mut i: usize = 0;
        proof {
            assert(overrides.deep_view() =~= config.remove_keys(names_before(start, 0)));
        }
        while i < n
            invariant
                i <= n,
                n == resolved_packages.len(),
                n == start.len(),
                forall|j: int| 0 <= j < i ==> (#[trigger] resolved_packages@[j]).deep_view()
                    == settled(config, start, f, m, j),
                forall|j: int| i <= j < n ==> (#[trigger] resolved_packages@[j]).deep_view()
                    == start[j],
                overrides.deep_view() == config.remove_keys(names_before(start, i as int)),
                first_stop(config, start, f, m, i as int) is None,
                f == target_triples@,
                m == target_matches.deep_view(),
                config == self.config(),
                start == self.resolved_packages().deep_view(),
                f == self.target_triples(),
                m == self.target_matches(),
                duplicate_sources(start).len() == 0,
            decreases n - i,
        {
            let ghost name = start[i as int].pkg_name;
            let ghost left = overrides.deep_view();
            let ghost held = overrides@;
            proof {
                assert(resolved_packages@[i as int].deep_view() == start[i as int]);
                assert(left.contains_key(name) <==> held.contains_key(name));
                assert(names_before(start, i as int).contains(name) <==> name_seen_before(
                    start,
                    i as int,
                ));
                if held.contains_key(name) {
                    assert(left[name] == held[name].deep_view());
                }
            }
            let found = overrides.remove(&resolved_packages[i].pkg_name);
            proof {
                assert(overrides.deep_view() =~= left.remove(name));
                assert(names_before(start, i + 1) =~= names_before(start, i as int).insert(name))
                    by {
                    assert forall|q: Seq<char>| names_before(start, i + 1).contains(q)
                        <==> names_before(start, i as int).insert(name).contains(q) by {
                        if names_before(start, i + 1).contains(q) {
                            let j = choose|j: int|
                                0 <= j < i + 1 && (#[trigger] start[j]).pkg_name == q;
                            if j < i {
                                assert(names_before(start, i as int).contains(q));
                            }
                        }
                        if names_before(start, i as int).contains(q) {
                            let j = choose|j: int| 0 <= j < i && (#[trigger] start[j]).pkg_name == q;
                            assert(0 <= j < i + 1 && start[j].pkg_name == q);
                        }
                        if q == name {
                            assert(start[i as int].pkg_name == q);
                        }
                    }
                }
                assert(overrides.deep_view() =~= config.remove_keys(names_before(start, i + 1)));
            }
            match found {
                Some(record) => {
                    proof {
                        assert(claimed(config, start, i as int) == Some(record.deep_view()));
                    }
                    let ghost others = resolved_packages@;
                    match apply_override(
                        &mut resolved_packages[i],
                        record,
                        &target_triples,
                        &target_matches,
                    ) {
                        Err(error) => {
                            proof {
                                assert(stop_at(config, start, f, m, i as int) == unresolved_in(
                                    record.deep_view(),
                                    f,
                                    m,
                                ));
                                assert(first_stop(config, start, f, m, i + 1) == stop_at(
                                    config,
                                    start,
                                    f,
                                    m,
                                    i as int,
                                ));
                                lemma_first_stop_stays(config, start, f, m, i + 1, n as int);
                            }
                            return Err(error);
                        },
                        Ok(()) => {},
                    }
                    proof {
                        assert(forall|j: int|
                            0 <= j < n && j != i ==> resolved_packages@[j] == others[j]);
                    }
                },
                None => {
                    proof {
                        assert(claimed(config, start, i as int) is None);
                    }
                },
            }
            i += 1;
        }
        proof {
            assert(resolved_packages.deep_view() =~= Seq::new(
                start.len(),
                |j: int| settled(config, start, f, m, j),
            ));
        }
        Ok(
            RendererInput {
                render_config,
                digest,
                resolved_packages,
                member_packages_version_mapping,
                label_to_crates,
            },
        )
    }
}

/// The names of the packages before place `i`.
pub open spec fn names_before(packages: Seq<PackageModel>, i: int) -> Set<Seq<char>> {
    Set::new(|name: Seq<char>| exists|j: int| 0 <= j < i && (#[trigger] packages[j]).pkg_name == name)
}

/// What has stopped consolidation within some packages stops it within more.
pub proof fn lemma_first_stop_stays(
    config: Map<Seq<char>, OverrideModel>,
    packages: Seq<PackageModel>,
    filter: Set<Seq<char>>,
    matches: Map<Seq<char>, Seq<Seq<char>>>,
    upto: int,
    later: int,
)
    requires
        upto <= later,
        first_stop(config, packages, filter, matches, upto) is Some,
    ensures
        first_stop(config, packages, filter, matches, later) == first_stop(
            config,
            packages,
            filter,
            matches,
            upto,
        ),
    decreases later - upto,
{
    if upto < later {
        lemma_first_stop_stays(config, packages, filter, matches, upto, later - 1);
    }
}

/// Of two packages with one name, the later claims no override: an override
/// is applied to one package at most.
pub proof fn lemma_override_claimed_once(
    config: Map<Seq<char>, OverrideModel>,
    packages: Seq<PackageModel>,
    i: int,
    j: int,
)
    requires
        0 <= i < j < packages.len(),
        packages[i].pkg_name == packages[j].pkg_name,
    ensures
        claimed(config, packages, j) is None,
{
    assert(name_seen_before(packages, j));
}

/// A graph without duplicates, none of whose packages has an override under
/// its name, comes out as it went in.
pub proof fn lemma_pass_through(
    config: Map<Seq<char>, OverrideModel>,
    packages: Seq<PackageModel>,
    filter: Set<Seq<char>>,
    matches: Map<Seq<char>, Seq<Seq<char>>>,
)
    requires
        crate::duplicates::identities(packages).no_duplicates(),
        forall|i: int| 0 <= i < packages.len() ==> !config.contains_key(
            (#[trigger] packages[i]).pkg_name,
        ),
    ensures
        consolidated(config, packages, filter, matches) == Ok::<Seq<PackageModel>, ErrorModel>(
            packages,
        ),
{
    crate::duplicates::lemma_duplicate_sources(packages, (Seq::empty(), Seq::empty()));
    lemma_no_stop(config, packages, filter, matches, packages.len() as int);
    assert(Seq::new(packages.len(), |i: int| settled(config, packages, filter, matches, i))
        =~= packages);
}

/// Nothing stops consolidation within packages none of which claims an
/// override with an unresolved target specification.
pub proof fn lemma_no_stop(
    config: Map<Seq<char>, OverrideModel>,
    packages: Seq<PackageModel>,
    filter: Set<Seq<char>>,
    matches: Map<Seq<char>, Seq<Seq<char>>>,
    upto: int,
)
    requires
        forall|i: int| 0 <= i < upto ==> stop_at(config, packages, filter, matches, i) is None,
    ensures
        first_stop(config, packages, filter, matches, upto) is None,
    decreases upto,
{
    if upto > 0 {
        lemma_no_stop(config, packages, filter, matches, upto - 1);
    }
}

/// An override under a name that no package has changes nothing.
pub proof fn lemma_unclaimed_override_unused(
    config: Map<Seq<char>, OverrideModel>,
    packages: Seq<PackageModel>,
    filter: Set<Seq<char>>,
    matches: Map<Seq<char>, Seq<Seq<char>>>,
    name: Seq<char>,
)
    requires
        forall|i: int| 0 <= i < packages.len() ==> (#[trigger] packages[i]).pkg_name != name,
    ensures
        consolidated(config.remove(name), packages, filter, matches) == consolidated(
            config,
            packages,
            filter,
            matches,
        ),
{
    let fewer = config.remove(name);
    assert forall|i: int| 0 <= i < packages.len() implies claimed(fewer, packages, i) == claimed(
        config,
        packages,
        i,
    ) by {
        assert(packages[i].pkg_name != name);
    }
    lemma_same_stops(fewer, config, packages, filter, matches, packages.len() as int);
    assert(Seq::new(packages.len(), |i: int| settled(fewer, packages, filter, matches, i))
        =~= Seq::new(packages.len(), |i: int| settled(config, packages, filter, matches, i)));
}

/// Two configurations under which every package claims the same override
/// stop consolidation alike.
pub proof fn lemma_same_stops(
    one: Map<Seq<char>, OverrideModel>,
    other: Map<Seq<char>, OverrideModel>,
    packages: Seq<PackageModel>,
    filter: Set<Seq<char>>,
    matches: Map<Seq<char>, Seq<Seq<char>>>,
    upto: int,
)
    requires
        upto <= packages.len(),
        forall|i: int| 0 <= i < upto ==> claimed(one, packages, i) == claimed(other, packages, i),
    ensures
        first_stop(one, packages, filter, matches, upto) == first_stop(
            other,
            packages,
            filter,
            matches,
            upto,
        ),
    decreases upto,
{
    if upto > 0 {
        lemma_same_stops(one, other, packages, filter, matches, upto - 1);
    }
}

/// Consolidation keeps every package in its place, under its name and
/// version, and keeps the blocks that a package had in front of any that it
/// gets.
pub proof fn lemma_identities_kept(
    config: Map<Seq<char>, OverrideModel>,
    packages: Seq<PackageModel>,
    filter: Set<Seq<char>>,
    matches: Map<Seq<char>, Seq<Seq<char>>>,
    i: int,
)
    requires
        consolidated(config, packages, filter, matches) is Ok,
        0 <= i < packages.len(),
    ensures
        ({
            let out = consolidated(config, packages, filter, matches)->Ok_0;
            &&& out.len() == packages.len()
            &&& out[i].pkg_name == packages[i].pkg_name
            &&& out[i].pkg_version == packages[i].pkg_version
            &&& packages[i].targeted_deps.is_prefix_of(out[i].targeted_deps)
        }),
{
}

} // verus!
