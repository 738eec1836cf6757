//! What updates and removals keep true of the tables.
use vstd::prelude::*;

use crate::asset::{AssetSource, Key, MetadataModel, RefModel, UUID_LEN};
use crate::index::{
    dependees_of, link, link_all, list_message, list_of, unlink, unlink_all, uuid_of,
    uuids_of, without,
};
use crate::message::{Error, Field, RecordModel, StoredRefModel, UuidListModel};
use crate::metadata::stored_ref_list;
use crate::transaction::{IndexModel, Store};
use crate::update::{
    all_uuids, deps_to_remove, fails_to_link, is_uuid, known, lemma_link_all_fails,
    lemma_not_in_empty, not_in, ref_keys, remove_outcome, stored_keys, update_meets_no_path,
    update_outcome,
};

verus! {

/// The dependees of an asset, as far as they can be read.
pub open spec fn listed(index: IndexModel, dep: Key) -> Seq<Key> {
    match dependees_of(index, dep) {
        Ok(list) => list,
        Err(_) => Seq::empty(),
    }
}

/// The build dependencies of an asset, as far as they can be read.
pub open spec fn deps(store: Store, id: Key) -> Seq<Key> {
    match deps_to_remove(store, id) {
        Ok(refs) => stored_keys(refs),
        Err(_) => Seq::empty(),
    }
}

/// Whether every list of dependees can be read and none is empty.
pub open spec fn lists_readable(index: IndexModel) -> bool {
    forall|d: Key| #[trigger]
        index.contains_key(d) ==> dependees_of(index, d) is Ok && listed(index, d).len() > 0
}

/// Whether the build dependencies of every asset can be read and are names.
pub open spec fn deps_readable(store: Store) -> bool {
    forall|a: Key| #[trigger]
        store.metadata.contains_key(a) ==> (deps_to_remove(store, a) matches Ok(refs) && all_uuids(
            refs,
        ))
}

/// Whether the index says the same as the records: it lists `a` among the
/// dependees of `d` just when `d` is a build dependency of `a`.
pub open spec fn in_step(store: Store) -> bool {
    &&& lists_readable(store.dependees)
    &&& deps_readable(store)
    &&& forall|a: Key, d: Key| pair_in_step(store, a, d)
}

/// Whether the index and the record of `a` agree on `d`.
pub open spec fn pair_in_step(store: Store, a: Key, d: Key) -> bool {
    listed(store.dependees, d).contains(a) <==> deps(store, a).contains(d)
}

/// Whether every name in the metadata has its sixteen bytes.
pub open spec fn names_valid(metadata: MetadataModel) -> bool {
    &&& metadata.id.len() == UUID_LEN
    &&& metadata.asset_type.len() == UUID_LEN
    &&& metadata.build_pipeline matches Some(pipeline) ==> pipeline.len() == UUID_LEN
    &&& forall|i: int|
        0 <= i < metadata.build_deps.len() ==> name_valid(#[trigger] metadata.build_deps[i])
    &&& forall|i: int|
        0 <= i < metadata.load_deps.len() ==> name_valid(#[trigger] metadata.load_deps[i])
}

/// Whether a reference, if it is a name, has its sixteen bytes.
pub open spec fn name_valid(reference: RefModel) -> bool {
    reference matches RefModel::Uuid(uuid) ==> uuid.len() == UUID_LEN
}

/// Whether every build dependency in the metadata is a name.
pub open spec fn deps_are_names(metadata: MetadataModel) -> bool {
    forall|i: int| 0 <= i < metadata.build_deps.len() ==> (#[trigger] metadata.build_deps[i]) is Uuid
}

/// What a list holds after a name was put behind it.
proof fn lemma_contains_push(list: Seq<Key>, last: Key, key: Key)
    ensures
        list.push(last).contains(key) <==> list.contains(key) || key == last,
{
    if list.contains(key) {
        let i = choose|i: int| 0 <= i < list.len() && list[i] == key;
        assert(list.push(last)[i] == key);
    }
    assert(list.push(last)[list.len() as int] == last);
}

/// What a list holds that is not empty: its last name, and what the rest holds.
pub(crate) proof fn lemma_contains_last(list: Seq<Key>, key: Key)
    requires
        list.len() > 0,
    ensures
        list.contains(key) <==> list.drop_last().contains(key) || key == list.last(),
{
    assert(list =~= list.drop_last().push(list.last()));
    lemma_contains_push(list.drop_last(), list.last(), key);
}

/// What is left of a list is what it held, but for the name that was taken out.
pub(crate) proof fn lemma_without(list: Seq<Key>, id: Key, key: Key)
    ensures
        without(list, id).contains(key) <==> list.contains(key) && key != id,
        !list.contains(id) ==> without(list, id) == list,
    decreases list.len(),
{
    list.index_of_first_ensures(id);
    if list.contains(id) {
        let i = list.index_of_first(id)->Some_0;
        let rest = list.update(i, list.last()).drop_last();
        lemma_without(rest, id, key);
        if list.contains(key) && key != id {
            let j = choose|j: int| 0 <= j < list.len() && list[j] == key;
            if j < list.len() - 1 {
                assert(rest[j] == key);
            } else {
                assert(rest[i] == key);
            }
        }
        if rest.contains(key) {
            let j = choose|j: int| 0 <= j < rest.len() && rest[j] == key;
            if j == i {
                assert(list[list.len() - 1] == key);
            } else {
                assert(list[j] == key);
            }
        }
    }
}

/// The names of a list that another lacks.
pub(crate) proof fn lemma_not_in(list: Seq<Key>, other: Seq<Key>, key: Key)
    ensures
        not_in(list, other).contains(key) <==> list.contains(key) && !other.contains(key),
    decreases list.len(),
{
    reveal(Seq::filter);
    if list.len() > 0 {
        let before = not_in(list.drop_last(), other);
        lemma_not_in(list.drop_last(), other, key);
        lemma_contains_last(list, key);
        lemma_contains_push(before, list.last(), key);
    }
}

/// The names that are read from a list are sixteen bytes long, and writing them
/// gives the list again.
proof fn lemma_uuids_of(items: Seq<Field<Seq<u8>>>)
    ensures
        uuids_of(items) matches Ok(uuids) ==> {
            &&& uuids.len() == items.len()
            &&& forall|i: int| 0 <= i < uuids.len() ==> (#[trigger] uuids[i]).len() == UUID_LEN
            &&& items == list_message(uuids)->Ok_0->Ok_0
        },
    decreases items.len(),
{
    if items.len() > 0 {
        lemma_uuids_of(items.drop_last());
        if let Ok(uuids) = uuids_of(items) {
            let before = uuids_of(items.drop_last())->Ok_0;
            assert(uuids == before.push(items.last()->Ok_0));
            assert(items.drop_last() =~= list_message(before)->Ok_0->Ok_0);
            assert forall|i: int| 0 <= i < items.len() implies items[i] == list_message(
                uuids,
            )->Ok_0->Ok_0[i] by {
                if i < items.len() - 1 {
                    assert(items.drop_last()[i] == items[i]);
                    assert(list_message(before)->Ok_0->Ok_0[i] == Field::<Seq<u8>>::Ok(before[i]));
                }
            }
            assert(items =~= list_message(uuids)->Ok_0->Ok_0);
        }
    } else {
        assert(items =~= list_message(Seq::empty())->Ok_0->Ok_0);
    }
}

/// What is read from a stored list of names is what was written there.
pub proof fn law_list_reads_back(uuids: Seq<Key>)
    requires
        forall|i: int| 0 <= i < uuids.len() ==> (#[trigger] uuids[i]).len() == UUID_LEN,
    ensures
        list_of(list_message(uuids)) == Result::<Seq<Key>, Error>::Ok(uuids),
    decreases uuids.len(),
{
    let items = list_message(uuids)->Ok_0->Ok_0;
    if uuids.len() > 0 {
        law_list_reads_back(uuids.drop_last());
        assert(items.drop_last() =~= list_message(uuids.drop_last())->Ok_0->Ok_0);
        assert(uuids =~= uuids.drop_last().push(uuids.last()));
    } else {
        assert(uuids =~= Seq::<Key>::empty());
    }
}

/// The dependees of an asset are names of sixteen bytes, and writing them gives
/// the stored list again.
pub(crate) proof fn lemma_listed(index: IndexModel, dep: Key)
    ensures
        forall|i: int|
            0 <= i < listed(index, dep).len() ==> (#[trigger] listed(index, dep)[i]).len()
                == UUID_LEN,
        dependees_of(index, dep) is Ok && index.contains_key(dep) ==> index[dep] == list_message(
            listed(index, dep),
        ),
{
    if dependees_of(index, dep) is Ok && index.contains_key(dep) {
        lemma_uuids_of(index[dep]->Ok_0->Ok_0);
    }
}

/// What one link does to the lists.
proof fn lemma_link(index: IndexModel, dep: Key, id: Key)
    requires
        id.len() == UUID_LEN,
        dependees_of(index, dep) is Ok,
    ensures
        link(index, dep, id).result is Ok,
        listed(link(index, dep, id).index, dep) == listed(index, dep).push(id),
        dependees_of(link(index, dep, id).index, dep) is Ok,
        forall|d: Key|
            d != dep ==> #[trigger] dependees_of(link(index, dep, id).index, d) == dependees_of(
                index,
                d,
            ),
        forall|d: Key|
            d != dep ==> (#[trigger] link(index, dep, id).index.contains_key(d)
                <==> index.contains_key(d)),
{
    lemma_listed(index, dep);
    law_list_reads_back(listed(index, dep).push(id));
}

/// What a run of links does to the lists.
proof fn lemma_link_all(index: IndexModel, deps: Seq<Key>, id: Key)
    requires
        id.len() == UUID_LEN,
        forall|i: int| 0 <= i < deps.len() ==> dependees_of(index, #[trigger] deps[i]) is Ok,
    ensures
        link_all(index, deps, id).result is Ok,
        forall|d: Key| #[trigger]
            dependees_of(link_all(index, deps, id).index, d) is Ok == (dependees_of(index, d) is Ok),
        forall|d: Key, a: Key| #[trigger]
            listed(link_all(index, deps, id).index, d).contains(a) <==> listed(index, d).contains(a)
                || (a == id && deps.contains(d)),
        forall|d: Key|
            !deps.contains(d) ==> #[trigger] dependees_of(link_all(index, deps, id).index, d)
                == dependees_of(index, d),
        lists_readable(index) ==> lists_readable(link_all(index, deps, id).index),
    decreases deps.len(),
{
    if deps.len() > 0 {
        let init = deps.drop_last();
        let dep = deps.last();
        assert forall|i: int| 0 <= i < init.len() implies dependees_of(
            index,
            #[trigger] init[i],
        ) is Ok by {
            assert(init[i] == deps[i]);
        }
        lemma_link_all(index, init, id);
        let before = link_all(index, init, id).index;
        let after = link_all(index, deps, id).index;
        assert(dependees_of(index, deps[deps.len() - 1]) is Ok);
        assert(dependees_of(before, dep) is Ok);
        lemma_link(before, dep, id);
        assert(after == link(before, dep, id).index);
        assert forall|d: Key|
            dependees_of(after, d) is Ok == (dependees_of(index, d) is Ok) by {
            assert(dependees_of(before, d) is Ok == (dependees_of(index, d) is Ok));
        }
        assert forall|d: Key, a: Key| #[trigger]
            listed(after, d).contains(a) <==> listed(index, d).contains(a) || (a == id
                && deps.contains(d)) by {
            assert(listed(before, d).contains(a) <==> listed(index, d).contains(a) || (a == id
                && init.contains(d)));
            lemma_contains_last(deps, d);
            if d == dep {
                lemma_contains_push(listed(before, d), id, a);
            } else {
                assert(dependees_of(after, d) == dependees_of(before, d));
            }
        }
        assert forall|d: Key| !deps.contains(d) implies #[trigger] dependees_of(after, d)
            == dependees_of(index, d) by {
            assert(d != dep) by {
                assert(deps[deps.len() - 1] == dep);
            }
            assert(!init.contains(d)) by {
                if init.contains(d) {
                    let i = choose|i: int| 0 <= i < init.len() && init[i] == d;
                    assert(deps[i] == d);
                }
            }
            assert(dependees_of(before, d) == dependees_of(index, d));
        }
        if lists_readable(index) {
            assert forall|d: Key| #[trigger] after.contains_key(d) implies dependees_of(
                after,
                d,
            ) is Ok && listed(after, d).len() > 0 by {
                if d != dep {
                    assert(before.contains_key(d));
                    assert(dependees_of(after, d) == dependees_of(before, d));
                }
            }
        }
    }
}

/// What one unlink does to the lists.
proof fn lemma_unlink(index: IndexModel, dep: Key, id: Key)
    requires
        dependees_of(index, dep) is Ok,
    ensures
        unlink(index, dep, id).result is Ok,
        listed(unlink(index, dep, id).index, dep) == without(listed(index, dep), id),
        dependees_of(unlink(index, dep, id).index, dep) is Ok,
        forall|d: Key|
            d != dep ==> #[trigger] dependees_of(unlink(index, dep, id).index, d) == dependees_of(
                index,
                d,
            ),
        forall|d: Key|
            d != dep ==> (#[trigger] unlink(index, dep, id).index.contains_key(d)
                <==> index.contains_key(d)),
        unlink(index, dep, id).index.contains_key(dep) ==> listed(
            unlink(index, dep, id).index,
            dep,
        ).len() > 0,
{
    let list = listed(index, dep);
    let rest = without(list, id);
    lemma_listed(index, dep);
    assert forall|i: int| 0 <= i < rest.len() implies (#[trigger] rest[i]).len() == UUID_LEN by {
        assert(rest.contains(rest[i]));
        lemma_without(list, id, rest[i]);
    }
    law_list_reads_back(rest);
    if rest.len() == 0 {
        assert(rest =~= Seq::<Key>::empty());
    }
}

/// What a run of unlinks does to the lists.
proof fn lemma_unlink_all(index: IndexModel, deps: Seq<Key>, id: Key)
    requires
        forall|i: int| 0 <= i < deps.len() ==> dependees_of(index, #[trigger] deps[i]) is Ok,
    ensures
        unlink_all(index, deps, id).result is Ok,
        forall|d: Key| #[trigger]
            dependees_of(unlink_all(index, deps, id).index, d) is Ok == (dependees_of(
                index,
                d,
            ) is Ok),
        forall|d: Key, a: Key| #[trigger]
            listed(unlink_all(index, deps, id).index, d).contains(a) <==> listed(index, d).contains(a)
                && !(a == id && deps.contains(d)),
        forall|d: Key|
            !deps.contains(d) ==> #[trigger] dependees_of(unlink_all(index, deps, id).index, d)
                == dependees_of(index, d),
        lists_readable(index) ==> lists_readable(unlink_all(index, deps, id).index),
    decreases deps.len(),
{
    if deps.len() > 0 {
        let init = deps.drop_last();
        let dep = deps.last();
        assert forall|i: int| 0 <= i < init.len() implies dependees_of(
            index,
            #[trigger] init[i],
        ) is Ok by {
            assert(init[i] == deps[i]);
        }
        lemma_unlink_all(index, init, id);
        let before = unlink_all(index, init, id).index;
        let after = unlink_all(index, deps, id).index;
        assert(dependees_of(index, deps[deps.len() - 1]) is Ok);
        assert(dependees_of(before, dep) is Ok);
        lemma_unlink(before, dep, id);
        assert(after == unlink(before, dep, id).index);
        assert forall|d: Key|
            dependees_of(after, d) is Ok == (dependees_of(index, d) is Ok) by {
            assert(dependees_of(before, d) is Ok == (dependees_of(index, d) is Ok));
        }
        assert forall|d: Key, a: Key| #[trigger]
            listed(after, d).contains(a) <==> listed(index, d).contains(a) && !(a == id
                && deps.contains(d)) by {
            assert(listed(before, d).contains(a) <==> listed(index, d).contains(a) && !(a == id
                && init.contains(d)));
            lemma_contains_last(deps, d);
            if d == dep {
                lemma_without(listed(before, d), id, a);
            } else {
                assert(dependees_of(after, d) == dependees_of(before, d));
            }
        }
        assert forall|d: Key| !deps.contains(d) implies #[trigger] dependees_of(after, d)
            == dependees_of(index, d) by {
            assert(d != dep) by {
                assert(deps[deps.len() - 1] == dep);
            }
            assert(!init.contains(d)) by {
                if init.contains(d) {
                    let i = choose|i: int| 0 <= i < init.len() && init[i] == d;
                    assert(deps[i] == d);
                }
            }
            assert(dependees_of(before, d) == dependees_of(index, d));
        }
        if lists_readable(index) {
            assert forall|d: Key| #[trigger] after.contains_key(d) implies dependees_of(
                after,
                d,
            ) is Ok && listed(after, d).len() > 0 by {
                if d != dep {
                    assert(before.contains_key(d));
                    assert(dependees_of(after, d) == dependees_of(before, d));
                }
            }
        }
    }
}

/// The names that a list of references is stored with.
pub(crate) proof fn lemma_stored_names(refs: Seq<RefModel>)
    ensures
        stored_keys(stored_ref_list(refs)) == ref_keys(refs),
{
    assert(stored_keys(stored_ref_list(refs)) =~= ref_keys(refs));
}

/// Where the index is in step, every asset's dependees can be read.
proof fn lemma_all_readable(index: IndexModel, d: Key)
    requires
        lists_readable(index),
    ensures
        dependees_of(index, d) is Ok,
{
    assert(index.contains_key(d) ==> dependees_of(index, d) is Ok);
}

/// Empty tables are in step.
pub proof fn law_empty_tables_in_step(store: Store)
    requires
        store.metadata == Map::<Key, Field<RecordModel>>::empty(),
        store.dependees == IndexModel::empty(),
    ensures
        in_step(store),
{
    assert forall|a: Key, d: Key| pair_in_step(store, a, d) by {
        assert(deps(store, a) =~= Seq::<Key>::empty());
    }
}

/// An update of tables that are in step leaves them in step: the index goes on
/// listing exactly the assets whose records name a build dependency. It goes
/// through unless the record of the asset cannot be read.
pub proof fn law_update_keeps_in_step(
    store: Store,
    import_hash: u64,
    metadata: MetadataModel,
    source: AssetSource,
    batch: Seq<Key>,
)
    requires
        in_step(store),
        names_valid(metadata),
        update_meets_no_path(store, metadata),
    ensures
        update_outcome(store, import_hash, metadata, source, batch).result is Ok <==> known(
            store,
            metadata.id,
        ) is Ok,
        in_step(update_outcome(store, import_hash, metadata, source, batch).store),
{
    let outcome = update_outcome(store, import_hash, metadata, source, batch);
    let id = metadata.id;
    if known(store, id) is Ok {
        let before = deps(store, id);
        let after = ref_keys(metadata.build_deps);
        let added = not_in(after, before);
        let gone = not_in(before, after);
        assert(stored_keys(known(store, id)->Ok_0.deps) =~= before);
        assert forall|i: int| 0 <= i < added.len() implies dependees_of(
            store.dependees,
            #[trigger] added[i],
        ) is Ok by {
            lemma_all_readable(store.dependees, added[i]);
        }
        lemma_link_all(store.dependees, added, id);
        let linked = link_all(store.dependees, added, id).index;
        assert forall|i: int| 0 <= i < gone.len() implies dependees_of(
            linked,
            #[trigger] gone[i],
        ) is Ok by {
            lemma_all_readable(linked, gone[i]);
        }
        lemma_unlink_all(linked, gone, id);
        assert(outcome.result is Ok);
        assert(outcome.store.dependees == unlink_all(linked, gone, id).index);
        lemma_stored_names(metadata.build_deps);
        lemma_new_deps_readable(store, import_hash, metadata, source, batch);
        assert forall|a: Key, d: Key| pair_in_step(outcome.store, a, d) by {
            assert(pair_in_step(store, a, d));
            lemma_not_in(after, before, d);
            lemma_not_in(before, after, d);
            assert(listed(linked, d).contains(a) <==> listed(store.dependees, d).contains(a) || (a
                == id && added.contains(d)));
            assert(listed(outcome.store.dependees, d).contains(a) <==> listed(linked, d).contains(a)
                && !(a == id && gone.contains(d)));
            if a != id {
                assert(deps(outcome.store, a) == deps(store, a));
            } else {
                assert(deps(outcome.store, a) == after);
            }
        }
    }
}

/// After an update that goes through, the build dependencies of every asset can
/// still be read.
proof fn lemma_new_deps_readable(
    store: Store,
    import_hash: u64,
    metadata: MetadataModel,
    source: AssetSource,
    batch: Seq<Key>,
)
    requires
        deps_readable(store),
        names_valid(metadata),
        update_meets_no_path(store, metadata),
        update_outcome(store, import_hash, metadata, source, batch).result is Ok,
    ensures
        deps_readable(update_outcome(store, import_hash, metadata, source, batch).store),
{
    let after = update_outcome(store, import_hash, metadata, source, batch).store;
    lemma_updated_with_names(store, import_hash, metadata, source, batch);
    assert forall|a: Key| #[trigger] after.metadata.contains_key(a) implies (deps_to_remove(
        after,
        a,
    ) matches Ok(refs) && all_uuids(refs)) by {
        if a == metadata.id {
            let refs = stored_ref_list(metadata.build_deps);
            assert(deps_to_remove(after, a)->Ok_0 == refs);
            assert forall|i: int| 0 <= i < refs.len() implies is_uuid(#[trigger] refs[i]) by {
                assert(metadata.build_deps[i] is Uuid);
                assert(name_valid(metadata.build_deps[i]));
            }
        } else {
            assert(store.metadata.contains_key(a));
            assert(deps_to_remove(after, a) == deps_to_remove(store, a));
        }
    }
}

/// An update that goes through was given names alone as build dependencies.
proof fn lemma_updated_with_names(
    store: Store,
    import_hash: u64,
    metadata: MetadataModel,
    source: AssetSource,
    batch: Seq<Key>,
)
    requires
        update_meets_no_path(store, metadata),
        update_outcome(store, import_hash, metadata, source, batch).result is Ok,
    ensures
        deps_are_names(metadata),
{
    if !store.metadata.contains_key(metadata.id) {
        let deps = metadata.build_deps;
        let keys = ref_keys(deps);
        assert(stored_keys(Seq::empty()) =~= Seq::<Key>::empty());
        lemma_not_in_empty(keys);
        assert forall|i: int| 0 <= i < deps.len() implies (#[trigger] deps[i]) is Uuid by {
            if deps[i] is Path {
                let j = choose|j: int|
                    0 <= j < i && fails_to_link(store.dependees, #[trigger] deps[j]);
                assert(keys[j] == deps[j]->Uuid_0);
                lemma_link_all_fails(store.dependees, keys, metadata.id, j);
            }
        }
    }
}

/// A removal from tables that are in step goes through and leaves them in step,
/// and no list holds the asset any more.
pub proof fn law_remove_keeps_in_step(store: Store, id: Key, batch: Seq<Key>)
    requires
        in_step(store),
    ensures
        remove_outcome(store, id, batch).result is Ok,
        in_step(remove_outcome(store, id, batch).store),
        forall|d: Key|
            !(#[trigger] listed(remove_outcome(store, id, batch).store.dependees, d)).contains(id),
{
    let outcome = remove_outcome(store, id, batch);
    let gone = deps(store, id);
    if store.metadata.contains_key(id) {
        assert(deps_to_remove(store, id) is Ok);
    }
    assert forall|i: int| 0 <= i < gone.len() implies dependees_of(
        store.dependees,
        #[trigger] gone[i],
    ) is Ok by {
        lemma_all_readable(store.dependees, gone[i]);
    }
    lemma_unlink_all(store.dependees, gone, id);
    assert(outcome.store.dependees == unlink_all(store.dependees, gone, id).index);
    assert forall|a: Key| #[trigger] outcome.store.metadata.contains_key(a) implies (deps_to_remove(
        outcome.store,
        a,
    ) matches Ok(refs) && all_uuids(refs)) by {
        assert(store.metadata.contains_key(a));
        assert(deps_to_remove(outcome.store, a) == deps_to_remove(store, a));
    }
    assert forall|a: Key, d: Key| pair_in_step(outcome.store, a, d) by {
        assert(pair_in_step(store, a, d));
        assert(listed(outcome.store.dependees, d).contains(a) <==> listed(
            store.dependees,
            d,
        ).contains(a) && !(a == id && gone.contains(d)));
        if a != id {
            assert(deps(outcome.store, a) == deps(store, a));
        } else {
            assert(deps(outcome.store, a) =~= Seq::<Key>::empty());
        }
    }
    assert forall|d: Key| !(#[trigger] listed(outcome.store.dependees, d)).contains(id) by {
        assert(pair_in_step(outcome.store, id, d));
        assert(deps(outcome.store, id) =~= Seq::<Key>::empty());
    }
}

/// How often a list holds an item after one more was put behind it.
pub(crate) proof fn lemma_count_push<A>(list: Seq<A>, last: A, item: A)
    ensures
        list.push(last).to_multiset().count(item) == list.to_multiset().count(item) + if last
            == item {
            1nat
        } else {
            0nat
        },
{
    broadcast use vstd::seq_lib::group_to_multiset_ensures;

}

/// How often a list that is not empty holds an item.
pub(crate) proof fn lemma_count_last<A>(list: Seq<A>, item: A)
    requires
        list.len() > 0,
    ensures
        list.to_multiset().count(item) == list.drop_last().to_multiset().count(item)
            + if list.last() == item {
            1nat
        } else {
            0nat
        },
{
    assert(list =~= list.drop_last().push(list.last()));
    lemma_count_push(list.drop_last(), list.last(), item);
}

/// A list holds an item just when it holds it more often than never.
pub(crate) proof fn lemma_count_contains<A>(list: Seq<A>, item: A)
    ensures
        list.contains(item) <==> list.to_multiset().count(item) > 0,
{
    vstd::seq_lib::to_multiset_contains(list, item);
}

/// Taking a name out of a list takes out all of it and nothing else: every other
/// name is there as often as before. A list without the name stays as it is, and
/// in one that holds it once, the last name takes its place.
pub proof fn law_taken_out(list: Seq<Key>, id: Key)
    ensures
        !without(list, id).contains(id),
        forall|key: Key|
            key != id ==> #[trigger] without(list, id).to_multiset().count(key)
                == list.to_multiset().count(key),
        !list.contains(id) ==> without(list, id) == list,
        forall|i: int|
            0 <= i < list.len() && list[i] == id && list.to_multiset().count(id) == 1
                ==> without(list, id) == #[trigger] list.update(i, list.last()).drop_last(),
    decreases list.len(),
{
    lemma_without(list, id, id);
    list.index_of_first_ensures(id);
    if list.contains(id) {
        let at = list.index_of_first(id)->Some_0;
        let swapped = list.update(at, list.last());
        let rest = swapped.drop_last();
        law_taken_out(rest, id);
        vstd::seq_lib::to_multiset_update(list, at, list.last());
        assert forall|key: Key| rest.to_multiset().count(key) == list.to_multiset().count(key) - (if key
            == id {
            1int
        } else {
            0int
        }) by {
            lemma_count_last(swapped, key);
            lemma_count_contains(list, id);
            lemma_count_contains(list, list.last());
            assert(swapped.last() == list.last());
            broadcast use vstd::multiset::group_multiset_axioms;

            assert(list.to_multiset().insert(list.last()).remove(id).count(key)
                == swapped.to_multiset().count(key));
        }
        assert forall|i: int|
            0 <= i < list.len() && list[i] == id && list.to_multiset().count(id) == 1 implies without(
            list,
            id,
        ) == #[trigger] list.update(i, list.last()).drop_last() by {
            lemma_count_contains(rest, id);
            lemma_without(rest, id, id);
            lemma_once(list, at, i, id);
        }
    }
}

/// A name that a list holds once has one place in it.
proof fn lemma_once(list: Seq<Key>, i: int, j: int, id: Key)
    requires
        0 <= i < list.len(),
        0 <= j < list.len(),
        list[i] == id,
        list[j] == id,
        list.to_multiset().count(id) == 1,
    ensures
        i == j,
    decreases list.len(),
{
    let init = list.drop_last();
    lemma_count_last(list, id);
    if i == list.len() - 1 || j == list.len() - 1 {
        lemma_count_contains(init, id);
        if i != j {
            let k = if i < j {
                i
            } else {
                j
            };
            assert(init[k] == id);
        }
    } else {
        assert(init[i] == id && init[j] == id);
        lemma_count_contains(init, id);
        assert(init.contains(id));
        lemma_once(init, i, j, id);
    }
}

/// Whether a field holds a name of sixteen bytes.
pub open spec fn holds_name(field: Field<Seq<u8>>) -> bool {
    field matches Ok(bytes) && bytes.len() == 16
}

/// A stored list reads as the names in its items, each in its place, if every item
/// holds a name of sixteen bytes. Otherwise the first part that does not read says
/// why: the message, the list, or the first item that holds no such name.
pub proof fn law_reads_list(message: Field<UuidListModel>)
    ensures
        match list_of(message) {
            Ok(names) => message matches Ok(Ok(items)) && names.len() == items.len() && forall|i: int|
                0 <= i < items.len() ==> holds_name(#[trigger] items[i]) && items[i]
                    == Field::<Seq<u8>>::Ok(names[i]),
            Err(e) => match message {
                Err(x) => e == Error::Read(x),
                Ok(Err(x)) => e == Error::Read(x),
                Ok(Ok(items)) => exists|i: int|
                    {
                        &&& 0 <= i < items.len()
                        &&& !holds_name(#[trigger] items[i])
                        &&& forall|j: int| 0 <= j < i ==> holds_name(#[trigger] items[j])
                        &&& e == (match items[i] {
                            Err(x) => Error::Read(x),
                            Ok(_) => Error::UuidLength,
                        })
                    },
            },
        },
{
    if let Ok(Ok(items)) = message {
        lemma_reads_items(items);
    }
}

proof fn lemma_reads_items(items: Seq<Field<Seq<u8>>>)
    ensures
        match uuids_of(items) {
            Ok(names) => names.len() == items.len() && forall|i: int|
                0 <= i < items.len() ==> holds_name(#[trigger] items[i]) && items[i]
                    == Field::<Seq<u8>>::Ok(names[i]),
            Err(e) => exists|i: int|
                {
                    &&& 0 <= i < items.len()
                    &&& !holds_name(#[trigger] items[i])
                    &&& forall|j: int| 0 <= j < i ==> holds_name(#[trigger] items[j])
                    &&& e == (match items[i] {
                        Err(x) => Error::Read(x),
                        Ok(_) => Error::UuidLength,
                    })
                },
        },
    decreases items.len(),
{
    if items.len() > 0 {
        let init = items.drop_last();
        lemma_reads_items(init);
        match uuids_of(init) {
            Ok(before) => {
                assert forall|j: int| 0 <= j < items.len() - 1 implies holds_name(
                    #[trigger] items[j],
                ) && items[j] == Field::<Seq<u8>>::Ok(before[j]) by {
                    assert(init[j] == items[j]);
                }
                let last = items[items.len() - 1];
                assert(last == items.last());
                if uuids_of(items) is Err {
                    assert(!holds_name(items[items.len() - 1]));
                }
            },
            Err(e) => {
                let i = choose|i: int|
                    {
                        &&& 0 <= i < init.len()
                        &&& !holds_name(#[trigger] init[i])
                        &&& forall|j: int| 0 <= j < i ==> holds_name(#[trigger] init[j])
                        &&& e == (match init[i] {
                            Err(x) => Error::Read(x),
                            Ok(_) => Error::UuidLength,
                        })
                    };
                assert(init[i] == items[i]);
                assert forall|j: int| 0 <= j < i implies holds_name(#[trigger] items[j]) by {
                    assert(init[j] == items[j]);
                }
            },
        }
    }
}

/// A list of names is stored as a message in which each item holds the name in its
/// place.
pub proof fn law_writes_list(names: Seq<Key>)
    ensures
        list_message(names) matches Ok(Ok(items)) && items.len() == names.len() && forall|i: int|
            0 <= i < names.len() ==> #[trigger] items[i] == Field::<Seq<u8>>::Ok(names[i]),
{
}

/// The dependees of an asset are what its list reads as, and none without a list.
pub proof fn law_dependees(index: IndexModel, dep: Key)
    ensures
        index.contains_key(dep) ==> dependees_of(index, dep) == list_of(index[dep]),
        !index.contains_key(dep) ==> (dependees_of(index, dep) matches Ok(list) && list.len() == 0),
        dependees_of(index, dep) matches Ok(list) ==> listed(index, dep) == list,
{
}

/// Whether the record of `a` names `d` among its build dependencies.
pub open spec fn named_dep(metadata: Map<Key, Field<RecordModel>>, a: Key, d: Key) -> bool {
    &&& metadata.contains_key(a)
    &&& metadata[a] matches Ok(record) && (record.build_deps matches Ok(refs) && refs.contains(
        StoredRefModel::Uuid(d),
    ))
}

/// Where the build dependencies in the records are names, the build dependencies
/// of an asset are those that its record names. So tables are in step just when
/// every list can be read and holds something, and `a` is in the list of `d` just
/// when the record of `a` names `d`.
pub proof fn law_in_step_means(store: Store, a: Key, d: Key)
    requires
        in_step(store),
    ensures
        (dependees_of(store.dependees, d) matches Ok(list) && list.contains(a)) <==> named_dep(
            store.metadata,
            a,
            d,
        ),
        store.dependees.contains_key(d) ==> (dependees_of(store.dependees, d) matches Ok(list)
            && list.len() > 0),
        deps(store, a).contains(d) <==> named_dep(store.metadata, a, d),
{
    assert(pair_in_step(store, a, d));
    lemma_all_readable(store.dependees, d);
    lemma_deps_named(store, a, d);
}

/// The build dependencies of an asset are those that its record names.
pub(crate) proof fn lemma_deps_named(store: Store, a: Key, d: Key)
    requires
        deps_to_remove(store, a) matches Ok(refs) ==> all_uuids(refs),
    ensures
        deps(store, a).contains(d) <==> named_dep(store.metadata, a, d),
{
    if let Ok(refs) = deps_to_remove(store, a) {
        if deps(store, a).contains(d) {
            let i = choose|i: int| 0 <= i < deps(store, a).len() && deps(store, a)[i] == d;
            assert(is_uuid(refs[i]));
            assert(refs[i] == StoredRefModel::Uuid(d));
        }
        if named_dep(store.metadata, a, d) {
            let i = choose|i: int| 0 <= i < refs.len() && refs[i] == StoredRefModel::Uuid(d);
            assert(deps(store, a)[i] == d);
        }
    }
}

/// Tables are in step where every list can be read and holds something, every
/// record has names of sixteen bytes alone as build dependencies, and `a` is in
/// the list of `d` just when the record of `a` names `d`.
pub proof fn law_in_step_when(store: Store)
    requires
        forall|d: Key| #[trigger]
            store.dependees.contains_key(d) ==> (dependees_of(store.dependees, d) matches Ok(list)
                && list.len() > 0),
        forall|a: Key| #[trigger]
            store.metadata.contains_key(a) ==> (store.metadata[a] matches Ok(record) && (
            record.build_deps matches Ok(refs) && forall|i: int|
                0 <= i < refs.len() ==> (#[trigger] refs[i] matches StoredRefModel::Uuid(uuid)
                    && uuid.len() == 16))),
        forall|a: Key, d: Key|
            (dependees_of(store.dependees, d) matches Ok(list) && list.contains(a)) <==> #[trigger]
            named_dep(store.metadata, a, d),
    ensures
        in_step(store),
{
    assert forall|a: Key| #[trigger] store.metadata.contains_key(a) implies (deps_to_remove(
        store,
        a,
    ) matches Ok(refs) && all_uuids(refs)) by {
        let refs = store.metadata[a]->Ok_0.build_deps->Ok_0;
        assert(all_uuids(refs));
    }
    assert(deps_readable(store));
    assert(lists_readable(store.dependees));
    assert forall|a: Key, d: Key| pair_in_step(store, a, d) by {
        lemma_all_readable(store.dependees, d);
        if store.metadata.contains_key(a) {
            assert(deps_to_remove(store, a) is Ok);
        }
        lemma_deps_named(store, a, d);
        assert(named_dep(store.metadata, a, d) == named_dep(store.metadata, a, d));
    }
}

/// Bytes are a name just when there are sixteen, and then they are the name.
pub proof fn law_name_of_bytes(field: Field<Seq<u8>>)
    ensures
        match field {
            Err(x) => uuid_of(field) == Result::<Key, Error>::Err(Error::Read(x)),
            Ok(bytes) => uuid_of(field) == if bytes.len() == 16 {
                Result::<Key, Error>::Ok(bytes)
            } else {
                Result::<Key, Error>::Err(Error::UuidLength)
            },
        },
{
}

}
