//! No two packages of a resolved graph may share a name and a version.

use vstd::prelude::*;
use crate::context::{CrateContext, PackageModel, SourceId};
use crate::error::{ConsolidationError, ErrorModel};
use crate::ordered::{ascending, ascending_seq, lemma_ascending_seq, lemma_keys_of, OrderedMap};

verus! {

/// The name and version of each package, in the order of the packages.
pub open spec fn identities(packages: Seq<PackageModel>) -> Seq<(Seq<char>, Seq<char>)> {
    packages.map_values(|p: PackageModel| (p.pkg_name, p.pkg_version))
}

/// How often `id` stands in `ids`.
pub open spec fn occurrences(ids: Seq<(Seq<char>, Seq<char>)>, id: (Seq<char>, Seq<char>)) -> nat
    decreases ids.len(),
{
    if ids.len() == 0 {
        0
    } else {
        occurrences(ids.drop_last(), id) + if ids.last() == id {
            1nat
        } else {
            0nat
        }
    }
}

/// What stands in `ids` more than once.
pub open spec fn duplicated(ids: Seq<(Seq<char>, Seq<char>)>) -> Set<(Seq<char>, Seq<char>)> {
    Set::new(|id: (Seq<char>, Seq<char>)| occurrences(ids, id) > 1)
}

/// The name and version pairs that more than one package has, each once, in
/// ascending order of name and then version, versions in the order of
/// versions.
pub open spec fn duplicate_sources(packages: Seq<PackageModel>) -> Seq<(Seq<char>, Seq<char>)> {
    ascending_seq::<SourceId>(duplicated(identities(packages)))
}

/// Nothing stands in a sequence more often than the sequence is long, and
/// only what the sequence holds stands in it at all.
pub proof fn lemma_occurrences(ids: Seq<(Seq<char>, Seq<char>)>, id: (Seq<char>, Seq<char>))
    ensures
        occurrences(ids, id) <= ids.len(),
        occurrences(ids, id) > 0 <==> ids.contains(id),
    decreases ids.len(),
{
    if ids.len() > 0 {
        let front = ids.drop_last();
        lemma_occurrences(front, id);
        if front.contains(id) {
            let j = choose|j: int| 0 <= j < front.len() && front[j] == id;
            assert(ids[j] == id);
        }
        if ids.contains(id) {
            let j = choose|j: int| 0 <= j < ids.len() && ids[j] == id;
            if j < ids.len() - 1 {
                assert(front[j] == id);
            }
        }
        if ids.last() == id {
            assert(ids[ids.len() - 1] == id);
        }
    }
}

/// The pairs that more than one of `packages` has, each once, in ascending
/// order.
pub fn find_duplicates(packages: &Vec<CrateContext>) -> (duplicates: Vec<(String, String)>)
    ensures
        duplicates.deep_view() == duplicate_sources(packages.deep_view()),
{
    let ghost ids = identities(packages.deep_view());
    let mut counts: OrderedMap<SourceId, usize> = OrderedMap::new();
    let mut i: usize = 0;
    while i < packages.len()
        invariant
            i <= packages.len(),
            ids == identities(packages.deep_view()),
            ids.len() == packages.len(),
            forall|id: (Seq<char>, Seq<char>)|
                counts@.contains_key(id) <==> occurrences(ids.take(i as int), id) > 0,
            forall|id: (Seq<char>, Seq<char>)|
                counts@.contains_key(id) ==> #[trigger] counts@[id] == occurrences(
                    ids.take(i as int),
                    id,
                ),
        decreases packages.len() - i,
    {
        let key = SourceId {
            name: packages[i].pkg_name.clone(),
            version: packages[i].pkg_version.clone(),
        };
        let ghost id = key.deep_view();
        proof {
            assert(id == ids[i as int]);
            lemma_occurrences(ids.take(i as int), id);
            let later = ids.take(i + 1);
            assert(later.drop_last() =~= ids.take(i as int));
            assert(later.last() == id);
        }
        let seen = match counts.remove(&key) {
            Some(count) => count + 1,
            None => 1,
        };
        counts.insert(key, seen);
        i += 1;
    }
    let ghost keys = counts.keys();
    let n = counts.len();
    let mut duplicates: Vec<(String, String)> = Vec::new();
    let mut j: usize = 0;
    proof {
        assert(ids.take(i as int) =~= ids);
    }
    while j < n
        invariant
            j <= n,
            n == keys.len(),
            counts.wf(),
            keys == counts.keys(),
            forall|id: (Seq<char>, Seq<char>)| counts@.contains_key(id) <==> occurrences(ids, id) > 0,
            forall|id: (Seq<char>, Seq<char>)|
                counts@.contains_key(id) ==> #[trigger] counts@[id] == occurrences(ids, id),
            ascending::<SourceId>(duplicates.deep_view()),
            forall|a: int|
                0 <= a < duplicates.len() ==> exists|b: int|
                    0 <= b < j && keys[b] == #[trigger] duplicates.deep_view()[a],
            forall|id: (Seq<char>, Seq<char>)|
                duplicates.deep_view().contains(id) <==> keys.take(j as int).contains(id)
                    && occurrences(ids, id) > 1,
        decreases n - j,
    {
        let key = counts.key_at(j);
        let count = counts.value_at(j);
        let ghost before = duplicates.deep_view();
        let ghost id = keys[j as int];
        if *count > 1 {
            duplicates.push((key.name.clone(), key.version.clone()));
            proof {
                let after = duplicates.deep_view();
                assert(after =~= before.push(id));
                assert forall|a: int, b: int| 0 <= a < b < after.len() implies <SourceId as crate::ordered::SortKey>::before(#[trigger] after[a], #[trigger] after[b]) by {
                    if b == after.len() - 1 {
                        let c = choose|c: int| 0 <= c < j && keys[c] == before[a];
                        assert(<SourceId as crate::ordered::SortKey>::before(
                            keys[c],
                            keys[j as int],
                        ));
                    } else {
                        assert(<SourceId as crate::ordered::SortKey>::before(
                            before[a],
                            before[b],
                        ));
                    }
                }
                assert forall|a: int| 0 <= a < after.len() implies exists|b: int|
                    0 <= b < j + 1 && keys[b] == #[trigger] after[a] by {
                    if a < before.len() {
                        let c = choose|c: int| 0 <= c < j && keys[c] == before[a];
                        assert(keys[c] == after[a]);
                    } else {
                        assert(keys[j as int] == after[a]);
                    }
                }
            }
        }
        proof {
            let after = duplicates.deep_view();
            let earlier = keys.take(j as int);
            let later = keys.take(j + 1);
            assert(later =~= earlier.push(id));
            assert forall|q: (Seq<char>, Seq<char>)|
                after.contains(q) <==> later.contains(q) && occurrences(ids, q) > 1 by {
                if earlier.contains(q) {
                    let c = choose|c: int| 0 <= c < earlier.len() && earlier[c] == q;
                    assert(later[c] == q);
                }
                if later.contains(q) {
                    let c = choose|c: int| 0 <= c < later.len() && later[c] == q;
                    if c < j {
                        assert(earlier[c] == q);
                    }
                }
                assert(later[j as int] == id);
                if before.contains(q) {
                    let c = choose|c: int| 0 <= c < before.len() && before[c] == q;
                    assert(after[c] == q);
                }
                if after.contains(q) {
                    let c = choose|c: int| 0 <= c < after.len() && after[c] == q;
                    if c < before.len() {
                        assert(before[c] == q);
                    }
                }
                if *count > 1 {
                    assert(after[after.len() - 1] == id);
                }
            }
        }
        j += 1;
    }
    proof {
        let found = duplicates.deep_view();
        assert(keys.take(j as int) =~= keys);
        assert forall|q: (Seq<char>, Seq<char>)| found.to_set().contains(q) <==> duplicated(
            ids,
        ).contains(q) by {
            lemma_keys_of::<SourceId, usize>(&counts, q);
        }
        assert(found.to_set() =~= duplicated(ids));
        lemma_ascending_seq::<SourceId>(found);
    }
    duplicates
}

/// Passes a graph in which no two packages share a name and a version;
/// reports every shared pair of any other.
pub fn validate(packages: &Vec<CrateContext>) -> (outcome: Result<(), ConsolidationError>)
    ensures
        duplicate_sources(packages.deep_view()).len() == 0 ==> outcome is Ok,
        duplicate_sources(packages.deep_view()).len() > 0 ==> outcome is Err
            && outcome->Err_0.deep_view() == (ErrorModel::DuplicateSources {
            duplicates: duplicate_sources(packages.deep_view()),
        }),
{
    let duplicates = find_duplicates(packages);
    if duplicates.len() == 0 {
        Ok(())
    } else {
        Err(ConsolidationError::DuplicateSources { duplicates })
    }
}

/// A pair stands more than once in a sequence exactly where it stands at two
/// places.
pub proof fn lemma_twice(ids: Seq<(Seq<char>, Seq<char>)>, id: (Seq<char>, Seq<char>))
    ensures
        occurrences(ids, id) > 1 <==> exists|i: int, j: int|
            0 <= i < j < ids.len() && #[trigger] ids[i] == id && #[trigger] ids[j] == id,
    decreases ids.len(),
{
    if ids.len() > 0 {
        let front = ids.drop_last();
        let last = ids.len() - 1;
        lemma_twice(front, id);
        lemma_occurrences(front, id);
        if occurrences(ids, id) > 1 {
            if occurrences(front, id) > 1 {
                let (i, j) = choose|i: int, j: int|
                    0 <= i < j < front.len() && #[trigger] front[i] == id && #[trigger] front[j]
                        == id;
                assert(ids[i] == id && ids[j] == id);
            } else {
                let i = choose|i: int| 0 <= i < front.len() && front[i] == id;
                assert(ids[i] == id && ids[last] == id);
            }
        }
        if exists|i: int, j: int|
            0 <= i < j < ids.len() && #[trigger] ids[i] == id && #[trigger] ids[j] == id {
            let (i, j) = choose|i: int, j: int|
                0 <= i < j < ids.len() && #[trigger] ids[i] == id && #[trigger] ids[j] == id;
            assert(front[i] == id);
            if j < last {
                assert(front[j] == id);
            }
        }
    }
}

/// The list of duplicates holds a pair exactly where more than one package
/// has it, and it is empty exactly where no two packages share a name and a
/// version.
pub proof fn lemma_duplicate_sources(packages: Seq<PackageModel>, id: (Seq<char>, Seq<char>))
    ensures
        duplicate_sources(packages).contains(id) <==> occurrences(identities(packages), id) > 1,
        ascending::<SourceId>(duplicate_sources(packages)),
        duplicate_sources(packages).len() == 0 <==> identities(packages).no_duplicates(),
{
    let ids = identities(packages);
    let twice = duplicated(ids);
    assert(twice.subset_of(ids.to_set())) by {
        assert forall|q: (Seq<char>, Seq<char>)| twice.contains(q) implies ids.to_set().contains(
            q,
        ) by {
            lemma_occurrences(ids, q);
        }
    }
    vstd::seq_lib::seq_to_set_is_finite(ids);
    vstd::set_lib::lemma_len_subset(twice, ids.to_set());
    crate::ordered::lemma_ascending_seq_of::<SourceId>(twice);
    let found = duplicate_sources(packages);
    assert(found.contains(id) <==> found.to_set().contains(id));
    if found.len() == 0 {
        assert forall|i: int, j: int| 0 <= i < ids.len() && 0 <= j < ids.len() && i != j implies ids[i]
            != ids[j] by {
            if ids[i] == ids[j] {
                lemma_twice(ids, ids[i]);
                if i < j {
                    assert(ids[i] == ids[i] && ids[j] == ids[i]);
                } else {
                    assert(ids[j] == ids[i] && ids[i] == ids[i]);
                }
                assert(twice.contains(ids[i]));
                assert(found.to_set().contains(ids[i]));
            }
        }
    }
    if ids.no_duplicates() && found.len() > 0 {
        assert(found.to_set().contains(found[0]));
        lemma_twice(ids, found[0]);
    }
}

} // verus!
