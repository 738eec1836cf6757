//! What updates and removals change, what they leave alone, and what undoes
//! them.
use vstd::bytes::spec_u64_to_le_bytes;
use vstd::prelude::*;

use crate::asset::{AssetSource, Key, MetadataModel, UUID_LEN};
use crate::index::{dependees_of, link_all, list_message, unlink, unlink_all, without};
use crate::index_laws::{
    law_list_reads_back, lemma_contains_last, lemma_count_contains, lemma_count_last, lemma_listed,
    lemma_not_in, lemma_stored_names, lemma_without, listed,
};
use crate::message::{Error, Field, RecordModel};
use crate::transaction::{IndexModel, Store};
use crate::update::{
    artifact_hash_of, deps_to_remove, imported_record, known, lemma_link_all_fails,
    lemma_not_in_empty, not_in, ref_keys, reindexed, remove_outcome, stored_deps_of, stored_keys,
    update_outcome,
};

verus! {

/// After an update that goes through, the metadata of the asset is what was
/// imported last, with the hash of its artifact and its build dependencies.
pub proof fn law_update_then_read(
    store: Store,
    import_hash: u64,
    metadata: MetadataModel,
    source: AssetSource,
    batch: Seq<Key>,
)
    requires
        update_outcome(store, import_hash, metadata, source, batch).result is Ok,
    ensures
        ({
            let record = imported_record(import_hash, metadata, source);
            let after = update_outcome(store, import_hash, metadata, source, batch).store;
            &&& after.metadata.contains_key(metadata.id)
            &&& after.metadata[metadata.id] == Field::<RecordModel>::Ok(record)
            &&& artifact_hash_of(record) == Result::<Option<Seq<u8>>, Error>::Ok(
                Some(spec_u64_to_le_bytes(import_hash)),
            )
            &&& stored_deps_of(record) matches Ok(deps) && stored_keys(deps) == ref_keys(
                metadata.build_deps,
            )
        }),
{
    lemma_stored_names(metadata.build_deps);
}

/// No name is missing from a list that it stands in.
proof fn lemma_not_in_itself(list: Seq<Key>, other: Seq<Key>)
    requires
        forall|i: int| 0 <= i < list.len() ==> other.contains(#[trigger] list[i]),
    ensures
        not_in(list, other) == Seq::<Key>::empty(),
    decreases list.len(),
{
    reveal(Seq::filter);
    if list.len() > 0 {
        assert forall|i: int| 0 <= i < list.drop_last().len() implies other.contains(
            #[trigger] list.drop_last()[i],
        ) by {
            assert(list.drop_last()[i] == list[i]);
        }
        lemma_not_in_itself(list.drop_last(), other);
        assert(other.contains(list[list.len() - 1]));
    }
}

/// An update that goes through can be repeated: the second time it changes
/// nothing, and notes nothing in the batch.
pub proof fn law_update_again(
    store: Store,
    import_hash: u64,
    metadata: MetadataModel,
    source: AssetSource,
    batch: Seq<Key>,
)
    requires
        update_outcome(store, import_hash, metadata, source, batch).result is Ok,
    ensures
        ({
            let once = update_outcome(store, import_hash, metadata, source, batch);
            update_outcome(once.store, import_hash, metadata, source, once.batch) == once
        }),
{
    let once = update_outcome(store, import_hash, metadata, source, batch);
    let twice = update_outcome(once.store, import_hash, metadata, source, once.batch);
    let keys = ref_keys(metadata.build_deps);
    lemma_stored_names(metadata.build_deps);
    assert(stored_keys(known(once.store, metadata.id)->Ok_0.deps) == keys);
    lemma_not_in_itself(keys, keys);
    assert(reindexed(once.store.dependees, metadata.id, keys, keys).index == once.store.dependees);
    assert(twice.store.metadata =~= once.store.metadata);
}

/// An update notes the asset in the batch just when it goes through and the
/// tables do not already know its artifact by the same hash.
pub proof fn law_update_notes_changes(
    store: Store,
    import_hash: u64,
    metadata: MetadataModel,
    source: AssetSource,
    batch: Seq<Key>,
)
    ensures
        ({
            let outcome = update_outcome(store, import_hash, metadata, source, batch);
            let same = known(store, metadata.id) matches Ok(k) && k.hash == Some(
                spec_u64_to_le_bytes(import_hash),
            );
            outcome.batch == if outcome.result is Ok && !same {
                batch.push(metadata.id)
            } else {
                batch
            }
        }),
{
}

/// Whether two indexes have the same entry, or neither has one, for a key.
pub open spec fn same_entry(a: IndexModel, b: IndexModel, d: Key) -> bool {
    &&& a.contains_key(d) <==> b.contains_key(d)
    &&& a.contains_key(d) ==> a[d] == b[d]
}

pub(crate) proof fn lemma_link_all_frame(index: IndexModel, deps: Seq<Key>, id: Key, d: Key)
    requires
        !deps.contains(d),
    ensures
        same_entry(link_all(index, deps, id).index, index, d),
    decreases deps.len(),
{
    if deps.len() > 0 {
        lemma_not_in_init(deps, d);
        lemma_link_all_frame(index, deps.drop_last(), id, d);
    }
}

pub(crate) proof fn lemma_unlink_all_frame(index: IndexModel, deps: Seq<Key>, id: Key, d: Key)
    requires
        !deps.contains(d),
    ensures
        same_entry(unlink_all(index, deps, id).index, index, d),
    decreases deps.len(),
{
    if deps.len() > 0 {
        lemma_not_in_init(deps, d);
        lemma_unlink_all_frame(index, deps.drop_last(), id, d);
    }
}

/// What a list does not hold, neither its last item is, nor the rest holds.
proof fn lemma_not_in_init(list: Seq<Key>, d: Key)
    requires
        list.len() > 0,
        !list.contains(d),
    ensures
        !list.drop_last().contains(d),
        list.last() != d,
{
    assert(list[list.len() - 1] == list.last());
    if list.drop_last().contains(d) {
        let i = choose|i: int| 0 <= i < list.drop_last().len() && list.drop_last()[i] == d;
        assert(list[i] == d);
    }
}

/// What the names of a list that another lacks are among.
proof fn lemma_not_in_subset(list: Seq<Key>, other: Seq<Key>, d: Key)
    requires
        not_in(list, other).contains(d),
    ensures
        list.contains(d),
{
    lemma_not_in(list, other, d);
}

/// An update leaves alone the records of other assets, the dependees of assets
/// that are no build dependency of the asset before or after, and the change
/// log. Where it fails, it leaves every record and the batch alone.
pub proof fn law_update_frame(
    store: Store,
    import_hash: u64,
    metadata: MetadataModel,
    source: AssetSource,
    batch: Seq<Key>,
)
    ensures
        ({
            let outcome = update_outcome(store, import_hash, metadata, source, batch);
            &&& outcome.store.changes == store.changes
            &&& outcome.store.metadata.remove(metadata.id) == store.metadata.remove(metadata.id)
            &&& outcome.result is Err ==> outcome.store.metadata == store.metadata && outcome.batch
                == batch
            &&& forall|d: Key|
                !(known(store, metadata.id) matches Ok(k) && stored_keys(k.deps).contains(d))
                    && !ref_keys(metadata.build_deps).contains(d) ==> #[trigger] same_entry(
                    outcome.store.dependees,
                    store.dependees,
                    d,
                )
        }),
{
    let outcome = update_outcome(store, import_hash, metadata, source, batch);
    assert(outcome.store.metadata.remove(metadata.id) =~= store.metadata.remove(metadata.id));
    if let Ok(k) = known(store, metadata.id) {
        let before = stored_keys(k.deps);
        let after = ref_keys(metadata.build_deps);
        let linked = link_all(store.dependees, not_in(after, before), metadata.id);
        assert forall|d: Key|
            !before.contains(d) && !after.contains(d) implies #[trigger] same_entry(
            outcome.store.dependees,
            store.dependees,
            d,
        ) by {
            if not_in(after, before).contains(d) {
                lemma_not_in_subset(after, before, d);
            }
            if not_in(before, after).contains(d) {
                lemma_not_in_subset(before, after, d);
            }
            lemma_link_all_frame(store.dependees, not_in(after, before), metadata.id, d);
            lemma_unlink_all_frame(linked.index, not_in(before, after), metadata.id, d);
        }
    }
}

/// A removal leaves alone the records of other assets, the dependees of assets
/// that were no build dependency of the asset, and the change log.
pub proof fn law_remove_frame(store: Store, id: Key, batch: Seq<Key>)
    ensures
        ({
            let outcome = remove_outcome(store, id, batch);
            &&& outcome.store.changes == store.changes
            &&& outcome.store.metadata.remove(id) == store.metadata.remove(id)
            &&& forall|d: Key|
                !(deps_to_remove(store, id) matches Ok(deps) && stored_keys(deps).contains(d))
                    ==> #[trigger] same_entry(outcome.store.dependees, store.dependees, d)
        }),
{
    let outcome = remove_outcome(store, id, batch);
    assert(outcome.store.metadata.remove(id) =~= store.metadata.remove(id));
    if let Ok(deps) = deps_to_remove(store, id) {
        assert forall|d: Key| !stored_keys(deps).contains(d) implies #[trigger] same_entry(
            outcome.store.dependees,
            store.dependees,
            d,
        ) by {
            lemma_unlink_all_frame(store.dependees, stored_keys(deps), id, d);
        }
    }
}

/// After a removal that gets as far as the record, the asset has none, and is
/// noted in the batch if it had one.
pub proof fn law_remove_then_read(store: Store, id: Key, batch: Seq<Key>)
    requires
        deps_to_remove(store, id) is Ok,
    ensures
        !remove_outcome(store, id, batch).store.metadata.contains_key(id),
        remove_outcome(store, id, batch).batch == if store.metadata.contains_key(id) {
            batch.push(id)
        } else {
            batch
        },
{
}

/// To remove an asset that has no record changes nothing.
pub proof fn law_remove_unknown(store: Store, id: Key, batch: Seq<Key>)
    requires
        !store.metadata.contains_key(id),
    ensures
        remove_outcome(store, id, batch).result is Ok,
        remove_outcome(store, id, batch).store == store,
        remove_outcome(store, id, batch).batch == batch,
{
    assert(stored_keys(Seq::empty()) =~= Seq::<Key>::empty());
    assert(store.metadata.remove(id) =~= store.metadata);
}

/// `n` times the same name.
pub open spec fn repeated(id: Key, n: nat) -> Seq<Key> {
    Seq::new(n, |i: int| id)
}

/// Whether the dependees of `d` in `now` are those in `index` with `id` added `n`
/// times behind them.
pub(crate) open spec fn padded(index: IndexModel, now: IndexModel, id: Key, d: Key, n: nat) -> bool {
    &&& now.contains_key(d)
    &&& now[d] == list_message(listed(index, d) + repeated(id, n))
}

/// Whether the dependees of `d` in `now` are those in `index` with `id` added
/// behind them.
spec fn added_behind(index: IndexModel, now: IndexModel, id: Key, d: Key) -> bool {
    exists|n: nat| padded(index, now, id, d, n)
}

/// What is read of dependees that `id` was added behind.
pub(crate) proof fn lemma_read_padded(index: IndexModel, now: IndexModel, id: Key, d: Key, n: nat)
    requires
        padded(index, now, id, d, n),
        id.len() == UUID_LEN,
    ensures
        dependees_of(now, d) == Result::<Seq<Key>, Error>::Ok(listed(index, d) + repeated(id, n)),
{
    lemma_listed(index, d);
    law_list_reads_back(listed(index, d) + repeated(id, n));
}

/// Linking adds the asset behind the dependees of each dependency, as often as
/// the dependency is named.
pub(crate) proof fn lemma_link_all_adds(index: IndexModel, deps: Seq<Key>, id: Key, d: Key)
    requires
        id.len() == UUID_LEN,
        link_all(index, deps, id).result is Ok,
        deps.contains(d),
    ensures
        padded(index, link_all(index, deps, id).index, id, d, deps.to_multiset().count(d)),
    decreases deps.len(),
{
    let init = deps.drop_last();
    let before = link_all(index, init, id).index;
    let now = link_all(index, deps, id).index;
    let n = init.to_multiset().count(d);
    lemma_count_last(deps, d);
    lemma_count_contains(init, d);
    if deps.last() != d {
        lemma_contains_last(deps, d);
        lemma_link_all_adds(index, init, id, d);
        assert(padded(index, now, id, d, n));
    } else if init.contains(d) {
        lemma_link_all_adds(index, init, id, d);
        lemma_read_padded(index, before, id, d, n);
        assert((listed(index, d) + repeated(id, n)).push(id) =~= listed(index, d) + repeated(
            id,
            n + 1,
        ));
        assert(padded(index, now, id, d, n + 1));
    } else {
        lemma_link_all_frame(index, init, id, d);
        assert(listed(index, d).push(id) =~= listed(index, d) + repeated(id, 1));
        assert(padded(index, now, id, d, 1));
    }
}

/// Taking a name out of a list that it was added behind gives the list again.
proof fn lemma_without_padding(list: Seq<Key>, id: Key, n: nat)
    requires
        !list.contains(id),
    ensures
        without(list + repeated(id, n), id) == list,
    decreases n,
{
    let longer = list + repeated(id, n);
    longer.index_of_first_ensures(id);
    if n == 0 {
        assert(longer =~= list);
    } else {
        assert(longer[list.len() as int] == id);
        assert(longer.contains(id));
        let at = longer.index_of_first(id)->Some_0;
        if at < list.len() {
            assert(list[at] == id);
        }
        assert(longer.update(at, longer.last()).drop_last() =~= list + repeated(
            id,
            (n - 1) as nat,
        ));
        lemma_without_padding(list, id, (n - 1) as nat);
    }
}

/// Where the dependees of `d` did not hold `id` to begin with, taking it out
/// gives them again.
proof fn lemma_unlink_restores(index: IndexModel, now: IndexModel, id: Key, d: Key)
    requires
        same_entry(now, index, d) || added_behind(index, now, id, d),
        id.len() == UUID_LEN,
        dependees_of(index, d) is Ok,
        !listed(index, d).contains(id),
        index.contains_key(d) ==> listed(index, d).len() > 0,
    ensures
        unlink(now, d, id).result is Ok,
        same_entry(unlink(now, d, id).index, index, d),
        forall|e: Key| e != d ==> #[trigger] same_entry(unlink(now, d, id).index, now, e),
{
    let base = listed(index, d);
    lemma_listed(index, d);
    if same_entry(now, index, d) {
        lemma_without(base, id, id);
    } else {
        let n = choose|n: nat| padded(index, now, id, d, n);
        lemma_read_padded(index, now, id, d, n);
        lemma_without_padding(base, id, n);
    }
}

/// Taking the asset out of the dependees of each dependency undoes the adding.
proof fn lemma_unlink_all_undoes(index: IndexModel, deps: Seq<Key>, id: Key, n: int)
    requires
        0 <= n <= deps.len(),
        id.len() == UUID_LEN,
        link_all(index, deps, id).result is Ok,
        forall|d: Key| #[trigger]
            deps.contains(d) ==> !listed(index, d).contains(id) && (index.contains_key(d) ==> listed(
                index,
                d,
            ).len() > 0),
    ensures
        ({
            let now = unlink_all(link_all(index, deps, id).index, deps.take(n), id);
            &&& now.result is Ok
            &&& forall|d: Key| #[trigger]
                same_entry(now.index, index, d) || (deps.contains(d) && !deps.take(n).contains(d)
                    && added_behind(index, now.index, id, d))
        }),
    decreases n,
{
    let linked = link_all(index, deps, id).index;
    let now = unlink_all(linked, deps.take(n), id).index;
    if n == 0 {
        assert forall|d: Key| #[trigger]
            same_entry(now, index, d) || (deps.contains(d) && !deps.take(n).contains(d)
                && added_behind(index, now, id, d)) by {
            if deps.contains(d) {
                lemma_link_all_adds(index, deps, id, d);
                assert(padded(index, now, id, d, deps.to_multiset().count(d)));
            } else {
                lemma_link_all_frame(index, deps, id, d);
            }
        }
    } else {
        let init = deps.take(n - 1);
        let dep = deps[n - 1];
        assert(deps.take(n).drop_last() =~= init);
        assert(deps.take(n).last() == dep);
        lemma_unlink_all_undoes(index, deps, id, n - 1);
        let before = unlink_all(linked, init, id).index;
        assert(deps.contains(dep));
        if dependees_of(index, dep) is Err {
            lemma_link_all_fails(index, deps, id, n - 1);
        }
        assert(same_entry(before, index, dep) || added_behind(index, before, id, dep));
        lemma_unlink_restores(index, before, id, dep);
        assert forall|d: Key| #[trigger]
            same_entry(now, index, d) || (deps.contains(d) && !deps.take(n).contains(d)
                && added_behind(index, now, id, d)) by {
            if d != dep {
                assert(same_entry(before, index, d) || added_behind(index, before, id, d));
                assert(same_entry(now, before, d));
                lemma_contains_last(deps.take(n), d);
                if !same_entry(before, index, d) {
                    let m = choose|m: nat| padded(index, before, id, d, m);
                    assert(padded(index, now, id, d, m));
                }
            }
        }
    }
}

/// To remove an asset right after the update that brought it in takes the tables
/// back to what they were, where no build dependency of it listed it already or
/// had a list without names. The batch then notes the asset twice.
pub proof fn law_remove_undoes_update(
    store: Store,
    import_hash: u64,
    metadata: MetadataModel,
    source: AssetSource,
    batch: Seq<Key>,
)
    requires
        metadata.id.len() == UUID_LEN,
        !store.metadata.contains_key(metadata.id),
        update_outcome(store, import_hash, metadata, source, batch).result is Ok,
        forall|d: Key| #[trigger]
            ref_keys(metadata.build_deps).contains(d) ==> !listed(store.dependees, d).contains(
                metadata.id,
            ) && (store.dependees.contains_key(d) ==> listed(store.dependees, d).len() > 0),
    ensures
        ({
            let updated = update_outcome(store, import_hash, metadata, source, batch);
            let removed = remove_outcome(updated.store, metadata.id, updated.batch);
            &&& removed.result is Ok
            &&& removed.store == store
            &&& removed.batch == batch.push(metadata.id).push(metadata.id)
        }),
{
    let id = metadata.id;
    let index = store.dependees;
    let keys = ref_keys(metadata.build_deps);
    let none = Seq::<Key>::empty();
    let updated = update_outcome(store, import_hash, metadata, source, batch);
    let removed = remove_outcome(updated.store, id, updated.batch);
    assert(stored_keys(Seq::empty()) =~= none);
    lemma_not_in_empty(keys);
    lemma_not_in_itself(none, keys);
    let linked = link_all(index, keys, id).index;
    assert(updated.store.dependees == linked);
    lemma_stored_names(metadata.build_deps);
    assert(stored_keys(deps_to_remove(updated.store, id)->Ok_0) == keys);
    lemma_unlink_all_undoes(index, keys, id, keys.len() as int);
    assert(keys.take(keys.len() as int) =~= keys);
    let now = removed.store.dependees;
    assert forall|d: Key| #[trigger] same_entry(now, index, d) by {
        assert(same_entry(now, index, d) || (keys.contains(d) && !keys.contains(d)));
    }
    lemma_same_index(now, index);
    assert(removed.store.metadata =~= store.metadata);
}

/// Indexes with the same entries are the same.
proof fn lemma_same_index(a: IndexModel, b: IndexModel)
    requires
        forall|d: Key| #[trigger] same_entry(a, b, d),
    ensures
        a == b,
{
    assert forall|d: Key| a.dom().contains(d) <==> b.dom().contains(d) by {
        assert(same_entry(a, b, d));
    }
    assert forall|d: Key| #[trigger] a.dom().contains(d) implies a[d] == b[d] by {
        assert(same_entry(a, b, d));
    }
    assert(a =~= b);
}

/// Whether two indexes have the same entries for the keys in a set.
pub open spec fn same_entries(a: IndexModel, b: IndexModel, keys: Set<Key>) -> bool {
    forall|d: Key| #[trigger] keys.contains(d) ==> same_entry(a, b, d)
}

/// Whether two stores have the same record of an asset, or neither has one.
pub open spec fn same_record(a: Store, b: Store, id: Key) -> bool {
    &&& a.metadata.contains_key(id) <==> b.metadata.contains_key(id)
    &&& a.metadata.contains_key(id) ==> a.metadata[id] == b.metadata[id]
}

proof fn lemma_link_all_local(
    a: IndexModel,
    b: IndexModel,
    deps: Seq<Key>,
    id: Key,
    keys: Set<Key>,
)
    requires
        forall|i: int| 0 <= i < deps.len() ==> keys.contains(#[trigger] deps[i]),
        same_entries(a, b, keys),
    ensures
        link_all(a, deps, id).result == link_all(b, deps, id).result,
        same_entries(link_all(a, deps, id).index, link_all(b, deps, id).index, keys),
    decreases deps.len(),
{
    if deps.len() > 0 {
        let init = deps.drop_last();
        assert forall|i: int| 0 <= i < init.len() implies keys.contains(#[trigger] init[i]) by {
            assert(init[i] == deps[i]);
        }
        lemma_link_all_local(a, b, init, id, keys);
        assert(keys.contains(deps[deps.len() - 1]));
    }
}

proof fn lemma_unlink_all_local(
    a: IndexModel,
    b: IndexModel,
    deps: Seq<Key>,
    id: Key,
    keys: Set<Key>,
)
    requires
        forall|i: int| 0 <= i < deps.len() ==> keys.contains(#[trigger] deps[i]),
        same_entries(a, b, keys),
    ensures
        unlink_all(a, deps, id).result == unlink_all(b, deps, id).result,
        same_entries(unlink_all(a, deps, id).index, unlink_all(b, deps, id).index, keys),
    decreases deps.len(),
{
    if deps.len() > 0 {
        let init = deps.drop_last();
        assert forall|i: int| 0 <= i < init.len() implies keys.contains(#[trigger] init[i]) by {
            assert(init[i] == deps[i]);
        }
        lemma_unlink_all_local(a, b, init, id, keys);
        assert(keys.contains(deps[deps.len() - 1]));
    }
}

/// What an update does rests on no more than the record of the asset and the
/// dependees of its build dependencies before and after: on tables that agree on
/// these it does the same to them.
pub proof fn law_update_local(
    a: Store,
    b: Store,
    import_hash: u64,
    metadata: MetadataModel,
    source: AssetSource,
    batch: Seq<Key>,
    keys: Set<Key>,
)
    requires
        same_record(a, b, metadata.id),
        same_entries(a.dependees, b.dependees, keys),
        forall|d: Key| #[trigger] ref_keys(metadata.build_deps).contains(d) ==> keys.contains(d),
        known(a, metadata.id) matches Ok(k) ==> forall|d: Key| #[trigger]
            stored_keys(k.deps).contains(d) ==> keys.contains(d),
    ensures
        ({
            let on_a = update_outcome(a, import_hash, metadata, source, batch);
            let on_b = update_outcome(b, import_hash, metadata, source, batch);
            &&& on_a.result == on_b.result
            &&& on_a.batch == on_b.batch
            &&& same_record(on_a.store, on_b.store, metadata.id)
            &&& same_entries(on_a.store.dependees, on_b.store.dependees, keys)
        }),
{
    let id = metadata.id;
    assert(known(a, id) == known(b, id));
    if let Ok(k) = known(a, id) {
        let before = stored_keys(k.deps);
        let after = ref_keys(metadata.build_deps);
        let added = not_in(after, before);
        let gone = not_in(before, after);
        assert forall|i: int| 0 <= i < added.len() implies keys.contains(#[trigger] added[i]) by {
            assert(added.contains(added[i]));
            lemma_not_in_subset(after, before, added[i]);
        }
        assert forall|i: int| 0 <= i < gone.len() implies keys.contains(#[trigger] gone[i]) by {
            assert(gone.contains(gone[i]));
            lemma_not_in_subset(before, after, gone[i]);
        }
        lemma_link_all_local(a.dependees, b.dependees, added, id, keys);
        lemma_unlink_all_local(
            link_all(a.dependees, added, id).index,
            link_all(b.dependees, added, id).index,
            gone,
            id,
            keys,
        );
    }
}

/// What a removal does rests on no more than the record of the asset and the
/// dependees of its build dependencies: on tables that agree on these it does
/// the same to them.
pub proof fn law_remove_local(a: Store, b: Store, id: Key, batch: Seq<Key>, keys: Set<Key>)
    requires
        same_record(a, b, id),
        same_entries(a.dependees, b.dependees, keys),
        deps_to_remove(a, id) matches Ok(deps) ==> forall|d: Key| #[trigger]
            stored_keys(deps).contains(d) ==> keys.contains(d),
    ensures
        ({
            let on_a = remove_outcome(a, id, batch);
            let on_b = remove_outcome(b, id, batch);
            &&& on_a.result == on_b.result
            &&& on_a.batch == on_b.batch
            &&& same_record(on_a.store, on_b.store, id)
            &&& same_entries(on_a.store.dependees, on_b.store.dependees, keys)
        }),
{
    assert(deps_to_remove(a, id) == deps_to_remove(b, id));
    if let Ok(deps) = deps_to_remove(a, id) {
        let gone = stored_keys(deps);
        assert forall|i: int| 0 <= i < gone.len() implies keys.contains(#[trigger] gone[i]) by {
            assert(gone.contains(gone[i]));
        }
        lemma_unlink_all_local(a.dependees, b.dependees, gone, id, keys);
    }
}

}
