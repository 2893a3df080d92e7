//! From a target specification to the platforms that it selects.

use vstd::prelude::*;
use vstd::std_specs::iter::IteratorSpec;
use crate::context::{CrateDependencyContext, CrateTargetedDepContext, TargetedModel};
use crate::error::{ConsolidationError, ErrorModel};
use crate::ordered::{OrderedMap, OrderedSet};
use crate::text::{sift, within};

verus! {

broadcast use vstd::string::group_string_axioms;

/// A specification that opens with `cfg(` is a predicate over platforms; any
/// other names one platform.
pub open spec fn is_predicate(target: Seq<char>) -> bool {
    &&& target.len() >= 4
    &&& target[0] == 'c'
    &&& target[1] == 'f'
    &&& target[2] == 'g'
    &&& target[3] == '('
}

/// Whether `target` is a predicate.
pub fn is_cfg_predicate(target: &str) -> (r: bool)
    ensures
        r == is_predicate(target@),
{
    let mut rest = target.chars();
    let c0 = rest.next();
    let c1 = rest.next();
    let c2 = rest.next();
    let c3 = rest.next();
    match (c0, c1, c2, c3) {
        (Some(a), Some(b), Some(c), Some(d)) => a == 'c' && b == 'f' && c == 'g' && d == '(',
        _ => false,
    }
}

/// Whether the registry of built-in targets knows `triple`.
pub uninterp spec fn builtin_target(triple: Seq<char>) -> bool;

/// Looks `triple` up with `cfg_expr::targets::get_builtin_target_by_triple`,
/// which searches a fixed table for an entry of exactly that name. The answer
/// depends on the name alone; nothing more is claimed of it.
#[verifier::external_body]
fn is_builtin_target(triple: &str) -> (known: bool)
    ensures
        known == builtin_target(triple@),
{
    cfg_expr::targets::get_builtin_target_by_triple(triple).is_some()
}

/// The platforms on which a predicate was found to hold, in the order in
/// which they were reported; none where nothing was reported for it.
pub open spec fn reported(
    matches: Map<Seq<char>, Seq<Seq<char>>>,
    target: Seq<char>,
) -> Seq<Seq<char>> {
    if matches.contains_key(target) {
        matches[target]
    } else {
        Seq::empty()
    }
}

/// The platforms that `target` selects, given whether the registry knows it
/// as a triple. A predicate selects, of the platforms reported for it, those
/// in `filter`. Any other specification selects itself where the registry
/// knows it, whatever `filter` holds, and nothing where it does not.
pub open spec fn selection(
    target: Seq<char>,
    filter: Set<Seq<char>>,
    matches: Map<Seq<char>, Seq<Seq<char>>>,
    known: bool,
) -> Seq<Seq<char>> {
    if is_predicate(target) {
        reported(matches, target).filter(within(filter))
    } else if known {
        seq![target]
    } else {
        Seq::empty()
    }
}

/// The platforms that `target` selects.
pub open spec fn platforms(
    target: Seq<char>,
    filter: Set<Seq<char>>,
    matches: Map<Seq<char>, Seq<Seq<char>>>,
) -> Seq<Seq<char>> {
    selection(target, filter, matches, builtin_target(target))
}

/// `target` selects at least one platform.
pub open spec fn resolvable(
    target: Seq<char>,
    filter: Set<Seq<char>>,
    matches: Map<Seq<char>, Seq<Seq<char>>>,
) -> bool {
    platforms(target, filter, matches).len() > 0
}

/// The block that stands for `target` before any dependency is put in it.
pub open spec fn empty_block(
    target: Seq<char>,
    filter: Set<Seq<char>>,
    matches: Map<Seq<char>, Seq<Seq<char>>>,
) -> TargetedModel {
    TargetedModel {
        target,
        deps: CrateDependencyContext::none(),
        platform_targets: platforms(target, filter, matches),
    }
}

/// The platforms that `target` selects, where `known` says whether the
/// registry of built-in targets knows it as a triple.
pub fn select_platforms(
    target: &str,
    filter: &OrderedSet<String>,
    matches: &OrderedMap<String, Vec<String>>,
    known: bool,
) -> (selected: Vec<String>)
    ensures
        selected.deep_view() == selection(target@, filter@, matches.deep_view(), known),
{
    if is_cfg_predicate(target) {
        let key = target.to_owned();
        match matches.get(&key) {
            Some(reported) => sift(reported, filter, true),
            None => {
                let none: Vec<String> = Vec::new();
                assert(none.deep_view() =~= Seq::<Seq<char>>::empty());
                none
            },
        }
    } else if known {
        let mut one: Vec<String> = Vec::new();
        one.push(target.to_owned());
        assert(one.deep_view() =~= seq![target@]);
        one
    } else {
        let none: Vec<String> = Vec::new();
        assert(none.deep_view() =~= Seq::<Seq<char>>::empty());
        none
    }
}

/// A block for `target` with the platforms that it selects and no
/// dependencies, or the error that names `target` where it selects none.
pub fn targeted_dep_context_for(
    target: &str,
    target_triples_filter: &OrderedSet<String>,
    matches: &OrderedMap<String, Vec<String>>,
) -> (block: Result<CrateTargetedDepContext, ConsolidationError>)
    ensures
        resolvable(target@, target_triples_filter@, matches.deep_view()) ==> block is Ok
            && block->Ok_0.deep_view() == empty_block(
            target@,
            target_triples_filter@,
            matches.deep_view(),
        ),
        !resolvable(target@, target_triples_filter@, matches.deep_view()) ==> block is Err
            && block->Err_0.deep_view() == (ErrorModel::UnresolvedTarget { target: target@ }),
{
    let known = if is_cfg_predicate(target) {
        false
    } else {
        is_builtin_target(target)
    };
    let platform_targets = select_platforms(target, target_triples_filter, matches, known);
    if platform_targets.len() == 0 {
        Err(ConsolidationError::UnresolvedTarget { target: target.to_owned() })
    } else {
        Ok(
            CrateTargetedDepContext {
                target: target.to_owned(),
                deps: CrateDependencyContext::new(),
                platform_targets,
            },
        )
    }
}

/// A predicate selects only platforms of the filter, and only platforms
/// that were reported for it.
pub proof fn lemma_predicate_within_filter(
    target: Seq<char>,
    filter: Set<Seq<char>>,
    matches: Map<Seq<char>, Seq<Seq<char>>>,
    platform: Seq<char>,
)
    requires
        is_predicate(target),
    ensures
        platforms(target, filter, matches).contains(platform) <==> filter.contains(platform)
            && reported(matches, target).contains(platform),
{
    let all = reported(matches, target);
    let inside = within(filter);
    let kept = all.filter(inside);
    if kept.contains(platform) {
        let i = choose|i: int| 0 <= i < kept.len() && kept[i] == platform;
        all.lemma_filter_pred(inside, i);
        all.lemma_filter_contains_rev(inside, platform);
    }
    if filter.contains(platform) && all.contains(platform) {
        let i = choose|i: int| 0 <= i < all.len() && all[i] == platform;
        all.lemma_filter_contains(inside, i);
    }
}

/// Where every platform reported for a predicate is in the filter, the
/// predicate selects them all, in the order in which they were reported.
pub proof fn lemma_predicate_keeps_all(
    target: Seq<char>,
    filter: Set<Seq<char>>,
    matches: Map<Seq<char>, Seq<Seq<char>>>,
)
    requires
        is_predicate(target),
        forall|i: int|
            0 <= i < reported(matches, target).len() ==> filter.contains(
                #[trigger] reported(matches, target)[i],
            ),
    ensures
        platforms(target, filter, matches) == reported(matches, target),
{
    lemma_filter_all(reported(matches, target), within(filter));
}

/// Where no platform reported for a predicate is in the filter, the
/// predicate selects nothing.
pub proof fn lemma_predicate_keeps_none(
    target: Seq<char>,
    filter: Set<Seq<char>>,
    matches: Map<Seq<char>, Seq<Seq<char>>>,
)
    requires
        is_predicate(target),
        forall|i: int|
            0 <= i < reported(matches, target).len() ==> !filter.contains(
                #[trigger] reported(matches, target)[i],
            ),
    ensures
        !resolvable(target, filter, matches),
{
    let all = reported(matches, target);
    let inside = within(filter);
    let kept = all.filter(inside);
    if kept.len() > 0 {
        all.lemma_filter_pred(inside, 0);
        all.lemma_filter_contains_rev(inside, kept[0]);
        let i = choose|i: int| 0 <= i < all.len() && all[i] == kept[0];
        assert(!filter.contains(all[i]));
    }
}

/// A filter that every element passes keeps the sequence as it is.
pub proof fn lemma_filter_all<A>(s: Seq<A>, pred: spec_fn(A) -> bool)
    requires
        forall|i: int| 0 <= i < s.len() ==> pred(#[trigger] s[i]),
    ensures
        s.filter(pred) == s,
    decreases s.len(),
{
    reveal(Seq::filter);
    if s.len() > 0 {
        let front = s.drop_last();
        assert forall|i: int| 0 <= i < front.len() implies pred(#[trigger] front[i]) by {
            assert(front[i] == s[i]);
        }
        lemma_filter_all(front, pred);
        assert(pred(s[s.len() - 1]));
        assert(front.push(s.last()) =~= s);
    }
}

/// What a specification that is no predicate selects depends on neither the
/// filter nor what was reported: itself where the registry knows it, nothing
/// where it does not.
pub proof fn lemma_triple_ignores_filter(
    target: Seq<char>,
    filter: Set<Seq<char>>,
    matches: Map<Seq<char>, Seq<Seq<char>>>,
    other_filter: Set<Seq<char>>,
    other_matches: Map<Seq<char>, Seq<Seq<char>>>,
)
    requires
        !is_predicate(target),
    ensures
        platforms(target, filter, matches) == platforms(target, other_filter, other_matches),
        builtin_target(target) ==> platforms(target, filter, matches) == seq![target],
        !builtin_target(target) ==> !resolvable(target, filter, matches),
{
}

} // verus!
