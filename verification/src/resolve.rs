//! Dependency resolution: the entries that some entries need, directly and
//! through the entries that they depend on.

use crate::catalog::Catalog;
use crate::lookup::EntryId;
use crate::model::CatalogView;
use vstd::prelude::*;
use vstd::set_lib::{lemma_int_range, lemma_len_subset, set_int_range};

verus! {

/// The entries that the entry at `id` depends on. `None` where there is no
/// such entry, or where its dependency key names no bucket.
pub open spec fn dependencies_of(catalog: CatalogView, id: EntryId) -> Option<Seq<EntryId>> {
    match catalog.entry(id) {
        Some(entry) => catalog.dependencies(entry),
        None => None,
    }
}

/// Two expansions one after the other, where both exist.
pub open spec fn joined(first: Option<Seq<EntryId>>, second: Option<Seq<EntryId>>) -> Option<
    Seq<EntryId>,
> {
    match (first, second) {
        (Some(a), Some(b)) => Some(a + b),
        _ => None,
    }
}

/// `ids`, followed by what `ids` expand to: for each of them that has
/// dependencies, in order, the closure of those dependencies. Nothing is
/// left out for occurring twice. `None` where a chain of dependencies is
/// longer than `depth`.
pub open spec fn closure(catalog: CatalogView, ids: Seq<EntryId>, depth: nat) -> Option<
    Seq<EntryId>,
>
    decreases depth, ids.len(), 1nat,
{
    joined(Some(ids), expansions(catalog, ids, depth))
}

/// What `ids` expand to, one after the other.
pub open spec fn expansions(catalog: CatalogView, ids: Seq<EntryId>, depth: nat) -> Option<
    Seq<EntryId>,
>
    decreases depth, ids.len(), 0nat,
{
    if ids.len() == 0 {
        Some(Seq::empty())
    } else {
        joined(
            expansions(catalog, ids.drop_last(), depth),
            expansion(catalog, ids.last(), depth),
        )
    }
}

/// What one entry expands to: nothing where it has no dependencies, else the
/// closure of its dependencies.
pub open spec fn expansion(catalog: CatalogView, id: EntryId, depth: nat) -> Option<Seq<EntryId>>
    decreases depth, 0nat, 0nat,
{
    match dependencies_of(catalog, id) {
        None => Some(Seq::empty()),
        Some(dependencies) => if depth == 0 {
            None
        } else {
            closure(catalog, dependencies, (depth - 1) as nat)
        },
    }
}

/// Where the beginning of a list cannot be expanded, the list cannot.
pub proof fn lemma_expansions_fail(catalog: CatalogView, ids: Seq<EntryId>, depth: nat, k: int)
    requires
        0 <= k <= ids.len(),
        expansions(catalog, ids.take(k), depth) is None,
    ensures
        expansions(catalog, ids, depth) is None,
    decreases ids.len() - k,
{
    if k == ids.len() {
        assert(ids.take(k) =~= ids);
    } else {
        assert(ids.take(k + 1).drop_last() =~= ids.take(k));
        lemma_expansions_fail(catalog, ids, depth, k + 1);
    }
}

/// Whether each entry of `chain` has dependencies, and the next entry of the
/// chain among them.
pub open spec fn is_chain(catalog: CatalogView, chain: Seq<EntryId>) -> bool {
    &&& forall|i: int| 0 <= i < chain.len() ==> dependencies_of(catalog, #[trigger] chain[i]) is Some
    &&& forall|i: int, j: int|
        0 <= i && j == i + 1 && j < chain.len() ==> dependencies_of(
            catalog,
            #[trigger] chain[i],
        )->Some_0.contains(#[trigger] chain[j])
}

/// Whether the dependencies run in no circle: no chain comes back to an
/// entry that it has passed.
pub open spec fn acyclic(catalog: CatalogView) -> bool {
    forall|chain: Seq<EntryId>| #[trigger] is_chain(catalog, chain) ==> chain.no_duplicates()
}

/// Where a list cannot be expanded, one of its entries cannot.
proof fn lemma_failing_entry(catalog: CatalogView, ids: Seq<EntryId>, depth: nat) -> (k: int)
    requires
        expansions(catalog, ids, depth) is None,
    ensures
        0 <= k < ids.len(),
        expansion(catalog, ids[k], depth) is None,
    decreases ids.len(),
{
    if expansion(catalog, ids.last(), depth) is None {
        ids.len() - 1
    } else {
        lemma_failing_entry(catalog, ids.drop_last(), depth)
    }
}

/// Where a closure does not exist within `depth`, a chain of more than
/// `depth` entries starts in the list.
proof fn lemma_long_chain(catalog: CatalogView, ids: Seq<EntryId>, depth: nat) -> (chain: Seq<
    EntryId,
>)
    requires
        closure(catalog, ids, depth) is None,
    ensures
        is_chain(catalog, chain),
        chain.len() == depth + 1,
        ids.contains(chain[0]),
    decreases depth,
{
    let k = lemma_failing_entry(catalog, ids, depth);
    let first = ids[k];
    let dependencies = dependencies_of(catalog, first)->Some_0;
    if depth == 0 {
        seq![first]
    } else {
        let rest = lemma_long_chain(catalog, dependencies, (depth - 1) as nat);
        let chain = seq![first] + rest;
        assert forall|i: int| 0 <= i < chain.len() implies dependencies_of(
            catalog,
            #[trigger] chain[i],
        ) is Some by {
            if i > 0 {
                assert(chain[i] == rest[i - 1]);
            }
        }
        assert forall|i: int, j: int| 0 <= i && j == i + 1 && j < chain.len() implies dependencies_of(
            catalog,
            #[trigger] chain[i],
        )->Some_0.contains(#[trigger] chain[j]) by {
            assert(chain[j] == rest[j - 1]);
            if i > 0 {
                assert(chain[i] == rest[i - 1]);
            }
        }
        chain
    }
}

/// A chain is no longer than the entry table, unless it passes an entry
/// twice.
proof fn lemma_chain_is_short(catalog: CatalogView, chain: Seq<EntryId>)
    requires
        is_chain(catalog, chain),
        chain.no_duplicates(),
    ensures
        chain.len() <= catalog.entries.len(),
{
    let positions = chain.map_values(|id: EntryId| id.0 as int);
    let all = set_int_range(0, catalog.entries.len() as int);
    lemma_int_range(0, catalog.entries.len() as int);
    assert(positions.no_duplicates()) by {
        assert forall|i: int, j: int|
            0 <= i < positions.len() && 0 <= j < positions.len() && i != j implies positions[i]
            != positions[j] by {
            assert(chain[i] != chain[j]);
        }
    }
    positions.unique_seq_to_set();
    assert forall|position: int| positions.to_set().contains(position) implies all.contains(
        position,
    ) by {
        let i = choose|i: int| 0 <= i < positions.len() && positions[i] == position;
        assert(dependencies_of(catalog, chain[i]) is Some);
    }
    lemma_len_subset(positions.to_set(), all);
}

/// Where the dependencies run in no circle, every list of entries has its
/// closure within the depth that `recursive_deps` allows.
pub proof fn law_acyclic_closure_exists(catalog: CatalogView, ids: Seq<EntryId>)
    requires
        acyclic(catalog),
    ensures
        closure(catalog, ids, catalog.entries.len()) is Some,
{
    if closure(catalog, ids, catalog.entries.len()) is None {
        let chain = lemma_long_chain(catalog, ids, catalog.entries.len());
        assert(chain.no_duplicates());
        lemma_chain_is_short(catalog, chain);
    }
}

/// The closure of `entries` with chains of at most `depth` dependencies.
fn closure_within(catalog: &Catalog, entries: &[EntryId], depth: usize) -> (all: Option<
    Vec<EntryId>,
>)
    ensures
        match all {
            Some(v) => closure(catalog@, entries@, depth as nat) == Some(v@),
            None => closure(catalog@, entries@, depth as nat) is None,
        },
    decreases depth,
{
    let mut all: Vec<EntryId> = Vec::new();
    put_ids(&mut all, entries);
    let ghost mut found: Seq<EntryId> = Seq::empty();
    let mut i: usize = 0;
    assert(entries@.take(0) =~= Seq::<EntryId>::empty());
    while i < entries.len()
        invariant
            i <= entries@.len(),
            all@ == entries@ + found,
            expansions(catalog@, entries@.take(i as int), depth as nat) == Some(found),
        decreases entries@.len() - i,
    {
        let ghost next = expansion(catalog@, entries@[i as int], depth as nat);
        proof {
            assert(entries@.take(i + 1).drop_last() =~= entries@.take(i as int));
            assert(entries@.take(i + 1).last() == entries@[i as int]);
            assert(expansions(catalog@, entries@.take(i + 1), depth as nat) == joined(
                Some(found),
                next,
            ));
        }
        if let Some(entry) = catalog.get_entry(entries[i]) {
            if let Some(dependencies) = catalog.get_dependencies(entry) {
                assert(dependencies_of(catalog@, entries@[i as int]) == Some(dependencies@));
                if depth == 0 {
                    proof {
                        assert(next is None);
                        lemma_expansions_fail(catalog@, entries@, depth as nat, i + 1);
                    }
                    return None;
                }
                match closure_within(catalog, dependencies, depth - 1) {
                    None => {
                        proof {
                            assert(next is None);
                            lemma_expansions_fail(catalog@, entries@, depth as nat, i + 1);
                        }
                        return None;
                    },
                    Some(more) => {
                        put_ids(&mut all, more.as_slice());
                        proof {
                            assert(next == Some(more@));
                            assert(all@ =~= entries@ + (found + more@));
                            found = found + more@;
                        }
                    },
                }
            }
        }
        proof {
            assert(found + Seq::<EntryId>::empty() =~= found);
        }
        i += 1;
    }
    assert(entries@.take(i as int) =~= entries@);
    Some(all)
}

/// Appends `ids`.
fn put_ids(out: &mut Vec<EntryId>, ids: &[EntryId])
    ensures
        final(out)@ == old(out)@ + ids@,
{
    let mut i: usize = 0;
    assert(ids@.take(0) =~= Seq::<EntryId>::empty());
    while i < ids.len()
        invariant
            i <= ids@.len(),
            out@ == old(out)@ + ids@.take(i as int),
        decreases ids@.len() - i,
    {
        out.push(ids[i]);
        assert(ids@.take(i + 1) =~= ids@.take(i as int).push(ids@[i as int]));
        i += 1;
    }
    assert(ids@.take(i as int) =~= ids@);
}

/// `entries`, followed by everything they depend on, directly or through
/// other entries: the dependencies of each entry follow the list that names
/// the entry, in the order of that list. An entry that is reached twice
/// stands twice. `None` where a chain of dependencies is longer than the
/// entry table, as it is where the dependencies run in a circle.
pub fn recursive_deps(catalog: &Catalog, entries: &[EntryId]) -> (all: Option<Vec<EntryId>>)
    ensures
        match all {
            Some(v) => closure(catalog@, entries@, catalog@.entries.len()) == Some(v@),
            None => closure(catalog@, entries@, catalog@.entries.len()) is None,
        },
        acyclic(catalog@) ==> all is Some,
{
    proof {
        if acyclic(catalog@) {
            law_acyclic_closure_exists(catalog@, entries@);
        }
    }
    closure_within(catalog, entries, catalog.entry_count())
}

} // verus!
