//! What an update or a removal comes to, said of the records and the lists
//! themselves.
use vstd::bytes::{
    lemma_auto_spec_u64_to_from_le_bytes, spec_u64_from_le_bytes, spec_u64_to_le_bytes,
};
use vstd::prelude::*;

use crate::asset::{AssetSource, Key, MetadataModel, RefModel, UUID_LEN};
use crate::index::{dependees_of, lemma_link_all_stops, link_all, unlink_all, without};
use crate::index_laws::{
    deps, law_list_reads_back, law_taken_out, lemma_contains_last, lemma_count_last,
    lemma_count_push, lemma_deps_named, lemma_listed, lemma_not_in, lemma_without, listed, named_dep,
    names_valid,
};
use crate::message::{blank_record, ArtifactModel, Error, Field, RecordModel, StoredRefModel};
use crate::metadata::{parsed_record, record_parses};
use crate::metadata_laws::{holds_metadata, law_metadata_read_back, law_written_fields, read_back};
use crate::transaction::{IndexModel, Store};
use crate::update::{
    all_uuids, artifact_hash_of, deps_to_remove, fails_to_link, imported_record, is_uuid, known,
    lemma_link_all_fails, lemma_not_in_empty, not_in, ref_keys, remove_outcome, stored_deps_of,
    stored_keys, update_meets_no_path, update_outcome,
};
use crate::update_laws::{
    lemma_link_all_adds, lemma_link_all_frame, lemma_read_padded, lemma_unlink_all_frame, repeated,
};

verus! {

/// Why a record cannot be read as far as an update reads it, if it cannot: the
/// message, the artifact, its hash or the build dependencies, whichever comes
/// first.
pub open spec fn unreadable(message: Field<RecordModel>) -> Option<Error> {
    match message {
        Err(e) => Some(Error::Read(e)),
        Ok(record) => match record.latest_artifact {
            Err(e) => Some(Error::Read(e)),
            Ok(ArtifactModel::Id(Err(e))) => Some(Error::Read(e)),
            _ => match record.build_deps {
                Err(e) => Some(Error::Read(e)),
                Ok(_) => None,
            },
        },
    }
}

/// Whether an asset has no record, or one that can be read.
pub open spec fn record_fine(store: Store, id: Key) -> bool {
    store.metadata.contains_key(id) ==> unreadable(store.metadata[id]) is None
}

proof fn lemma_record_fine(store: Store, id: Key)
    ensures
        known(store, id) is Ok <==> record_fine(store, id),
        !record_fine(store, id) ==> known(store, id)->Err_0 == unreadable(store.metadata[id])->Some_0,
        record_fine(store, id) ==> deps_to_remove(store, id) == Result::<
            Seq<StoredRefModel>,
            Error,
        >::Ok(known(store, id)->Ok_0.deps),
{
}

/// What the references name.
proof fn lemma_ref_keys(refs: Seq<RefModel>, d: Key)
    requires
        forall|i: int| 0 <= i < refs.len() ==> (#[trigger] refs[i]) is Uuid,
    ensures
        ref_keys(refs).contains(d) <==> refs.contains(RefModel::Uuid(d)),
        ref_keys(refs).to_multiset().count(d) == refs.to_multiset().count(RefModel::Uuid(d)),
    decreases refs.len(),
{
    let keys = ref_keys(refs);
    if keys.contains(d) {
        let i = choose|i: int| 0 <= i < keys.len() && keys[i] == d;
        assert(refs[i] == RefModel::Uuid(d));
    }
    if refs.contains(RefModel::Uuid(d)) {
        let i = choose|i: int| 0 <= i < refs.len() && refs[i] == RefModel::Uuid(d);
        assert(keys[i] == d);
    }
    if refs.len() > 0 {
        let init = refs.drop_last();
        assert forall|i: int| 0 <= i < init.len() implies (#[trigger] init[i]) is Uuid by {
            assert(init[i] == refs[i]);
        }
        lemma_ref_keys(init, d);
        assert(ref_keys(init) =~= keys.drop_last());
        lemma_count_last(keys, d);
        lemma_count_last(refs, RefModel::Uuid(d));
        assert(refs[refs.len() - 1] is Uuid);
        assert(keys.last() == d <==> refs.last() == RefModel::Uuid(d));
    } else {
        broadcast use vstd::seq_lib::group_to_multiset_ensures;

        assert(keys.to_multiset().len() == 0);
        assert(refs.to_multiset().len() == 0);
    }
}

/// The names that another list lacks are there as often as before.
proof fn lemma_not_in_count(list: Seq<Key>, other: Seq<Key>, d: Key)
    requires
        !other.contains(d),
    ensures
        not_in(list, other).to_multiset().count(d) == list.to_multiset().count(d),
    decreases list.len(),
{
    reveal(Seq::filter);
    if list.len() > 0 {
        let before = not_in(list.drop_last(), other);
        lemma_not_in_count(list.drop_last(), other, d);
        lemma_count_last(list, d);
        if !other.contains(list.last()) {
            lemma_count_push(before, list.last(), d);
        }
    } else {
        assert(not_in(list, other) =~= list);
    }
}

/// What a run of unlinks leaves of the dependees of one that it names.
proof fn lemma_unlink_all_takes_out(index: IndexModel, deps: Seq<Key>, id: Key, d: Key)
    requires
        unlink_all(index, deps, id).result is Ok,
        deps.contains(d),
    ensures
        dependees_of(index, d) is Ok,
        dependees_of(unlink_all(index, deps, id).index, d) == Result::<Seq<Key>, Error>::Ok(
            without(listed(index, d), id),
        ),
        unlink_all(index, deps, id).index.contains_key(d) <==> without(listed(index, d), id).len()
            > 0,
    decreases deps.len(),
{
    let init = deps.drop_last();
    let before = unlink_all(index, init, id).index;
    lemma_contains_last(deps, d);
    if init.contains(d) {
        lemma_unlink_all_takes_out(index, init, id, d);
    } else {
        lemma_unlink_all_frame(index, init, id, d);
    }
    if deps.last() == d {
        let list = listed(before, d);
        let rest = without(list, id);
        lemma_listed(before, d);
        assert forall|i: int| 0 <= i < rest.len() implies (#[trigger] rest[i]).len() == UUID_LEN by {
            assert(rest.contains(rest[i]));
            lemma_without(list, id, rest[i]);
        }
        law_list_reads_back(rest);
        lemma_without(listed(index, d), id, id);
        lemma_without(without(listed(index, d), id), id, id);
        if rest.len() == 0 {
            assert(rest =~= Seq::<Key>::empty());
        }
    }
}

/// Why a run of links fails: the dependees of one of the assets cannot be read.
proof fn lemma_link_all_err(index: IndexModel, deps: Seq<Key>, id: Key)
    requires
        id.len() == UUID_LEN,
    ensures
        link_all(index, deps, id).result matches Err(e) ==> exists|i: int|
            0 <= i < deps.len() && dependees_of(index, #[trigger] deps[i]) == Result::<
                Seq<Key>,
                Error,
            >::Err(e),
        forall|d: Key| #[trigger]
            dependees_of(link_all(index, deps, id).index, d) is Err ==> dependees_of(
                link_all(index, deps, id).index,
                d,
            ) == dependees_of(index, d),
    decreases deps.len(),
{
    if deps.len() > 0 {
        let init = deps.drop_last();
        let before = link_all(index, init, id);
        lemma_link_all_err(index, init, id);
        let dep = deps[deps.len() - 1];
        if before.result is Ok {
            lemma_listed(before.index, dep);
            law_list_reads_back(listed(before.index, dep).push(id));
            if dependees_of(before.index, dep) is Err {
                assert(dependees_of(index, dep) == dependees_of(before.index, dep));
            }
            assert forall|d: Key| #[trigger]
                dependees_of(link_all(index, deps, id).index, d) is Err implies dependees_of(
                link_all(index, deps, id).index,
                d,
            ) == dependees_of(index, d) by {
                assert(dependees_of(before.index, d) is Err ==> dependees_of(before.index, d)
                    == dependees_of(index, d));
            }
        } else {
            let e = before.result->Err_0;
            let i = choose|i: int|
                0 <= i < init.len() && dependees_of(index, #[trigger] init[i]) == Result::<
                    Seq<Key>,
                    Error,
                >::Err(e);
            assert(deps[i] == init[i]);
        }
    }
}

/// Why a run of unlinks fails: the dependees of one of the assets cannot be read.
proof fn lemma_unlink_all_err(index: IndexModel, deps: Seq<Key>, id: Key)
    ensures
        unlink_all(index, deps, id).result matches Err(e) ==> exists|i: int|
            0 <= i < deps.len() && dependees_of(index, #[trigger] deps[i]) == Result::<
                Seq<Key>,
                Error,
            >::Err(e),
        forall|d: Key| #[trigger]
            dependees_of(unlink_all(index, deps, id).index, d) is Err <==> dependees_of(
                index,
                d,
            ) is Err,
        forall|d: Key| #[trigger]
            dependees_of(unlink_all(index, deps, id).index, d) is Err ==> dependees_of(
                unlink_all(index, deps, id).index,
                d,
            ) == dependees_of(index, d),
        (exists|i: int| 0 <= i < deps.len() && dependees_of(index, #[trigger] deps[i]) is Err)
            ==> unlink_all(index, deps, id).result is Err,
    decreases deps.len(),
{
    if deps.len() > 0 {
        let init = deps.drop_last();
        let before = unlink_all(index, init, id);
        let now = unlink_all(index, deps, id);
        lemma_unlink_all_err(index, init, id);
        let dep = deps[deps.len() - 1];
        if before.result is Ok {
            let list = listed(before.index, dep);
            let rest = without(list, id);
            lemma_listed(before.index, dep);
            assert forall|i: int| 0 <= i < rest.len() implies (#[trigger] rest[i]).len()
                == UUID_LEN by {
                assert(rest.contains(rest[i]));
                lemma_without(list, id, rest[i]);
            }
            law_list_reads_back(rest);
            assert(dependees_of(before.index, dep) is Err <==> dependees_of(index, dep) is Err);
            if dependees_of(before.index, dep) is Err {
                assert(dependees_of(index, dep) == dependees_of(before.index, dep));
            }
            assert forall|d: Key| #[trigger]
                dependees_of(now.index, d) is Err <==> dependees_of(index, d) is Err by {
                assert(dependees_of(before.index, d) is Err <==> dependees_of(index, d) is Err);
            }
            assert forall|d: Key| #[trigger] dependees_of(now.index, d) is Err implies dependees_of(
                now.index,
                d,
            ) == dependees_of(index, d) by {
                assert(dependees_of(before.index, d) is Err ==> dependees_of(before.index, d)
                    == dependees_of(index, d));
            }
            if exists|i: int| 0 <= i < deps.len() && dependees_of(index, #[trigger] deps[i]) is Err {
                let i = choose|i: int|
                    0 <= i < deps.len() && dependees_of(index, #[trigger] deps[i]) is Err;
                if i < init.len() {
                    assert(dependees_of(index, init[i]) is Err);
                }
            }
        } else {
            let e = before.result->Err_0;
            let i = choose|i: int|
                0 <= i < init.len() && dependees_of(index, #[trigger] init[i]) == Result::<
                    Seq<Key>,
                    Error,
                >::Err(e);
            assert(deps[i] == init[i]);
        }
    }
}

/// An update may be made just when no build dependency that it comes to look at is
/// anything but a name: of an asset with a readable record, all that the record
/// and the metadata hold; of one without a record, those in the metadata up to the
/// first whose dependees cannot be read.
pub proof fn law_update_allowed(store: Store, metadata: MetadataModel)
    ensures
        update_meets_no_path(store, metadata) <==> if store.metadata.contains_key(metadata.id) {
            record_fine(store, metadata.id) ==> {
                &&& forall|i: int|
                    0 <= i < metadata.build_deps.len() ==> (
                    #[trigger] metadata.build_deps[i]) is Uuid
                &&& store.metadata[metadata.id] matches Ok(record) && (
                record.build_deps matches Ok(refs) && forall|i: int|
                    0 <= i < refs.len() ==> (#[trigger] refs[i] matches StoredRefModel::Uuid(uuid)
                        && uuid.len() == 16))
            }
        } else {
            forall|i: int|
                0 <= i < metadata.build_deps.len() && (
                #[trigger] metadata.build_deps[i]) is Path ==> exists|j: int|
                    0 <= j < i && (#[trigger] metadata.build_deps[j] matches RefModel::Uuid(uuid)
                        && dependees_of(store.dependees, uuid) is Err)
        },
{
    lemma_record_fine(store, metadata.id);
    if store.metadata.contains_key(metadata.id) {
        if record_fine(store, metadata.id) {
            let refs = known(store, metadata.id)->Ok_0.deps;
            assert forall|i: int| 0 <= i < refs.len() implies is_uuid(#[trigger] refs[i]) == (
            refs[i] matches StoredRefModel::Uuid(uuid) && uuid.len() == 16) by {
            }
            assert(store.metadata[metadata.id]->Ok_0.build_deps->Ok_0 == refs);
        }
    } else {
        let refs = metadata.build_deps;
        assert forall|j: int| 0 <= j < refs.len() implies fails_to_link(
            store.dependees,
            #[trigger] refs[j],
        ) == (refs[j] matches RefModel::Uuid(uuid) && dependees_of(store.dependees, uuid) is Err) by {
        }
        if update_meets_no_path(store, metadata) {
            assert forall|i: int| 0 <= i < refs.len() && (#[trigger] refs[i]) is Path implies exists|
                j: int,
            |
                0 <= j < i && (#[trigger] refs[j] matches RefModel::Uuid(uuid) && dependees_of(
                    store.dependees,
                    uuid,
                ) is Err) by {
                let j = choose|j: int| 0 <= j < i && fails_to_link(store.dependees, #[trigger] refs[j]);
                assert(refs[j] is Uuid);
            }
        }
        if forall|i: int|
            0 <= i < refs.len() && (#[trigger] refs[i]) is Path ==> exists|j: int|
                0 <= j < i && (#[trigger] refs[j] matches RefModel::Uuid(uuid) && dependees_of(
                    store.dependees,
                    uuid,
                ) is Err) {
            assert forall|i: int| 0 <= i < refs.len() && (#[trigger] refs[i]) is Path implies exists|
                j: int,
            |
                0 <= j < i && fails_to_link(store.dependees, #[trigger] refs[j]) by {
                let j = choose|j: int|
                    0 <= j < i && (#[trigger] refs[j] matches RefModel::Uuid(uuid) && dependees_of(
                        store.dependees,
                        uuid,
                    ) is Err);
                assert(fails_to_link(store.dependees, refs[j]));
            }
        }
    }
}

/// A removal may be made just when the build dependencies of the asset cannot be
/// read or are names.
pub proof fn law_remove_allowed(store: Store, id: Key)
    ensures
        (deps_to_remove(store, id) matches Ok(refs) ==> all_uuids(refs)) <==> (
        store.metadata.contains_key(id) ==> (store.metadata[id] matches Ok(record) ==> (
        record.build_deps matches Ok(refs) ==> forall|i: int|
            0 <= i < refs.len() ==> (#[trigger] refs[i] matches StoredRefModel::Uuid(uuid)
                && uuid.len() == 16)))),
{
    if let Ok(refs) = deps_to_remove(store, id) {
        assert forall|i: int| 0 <= i < refs.len() implies is_uuid(#[trigger] refs[i]) == (
        refs[i] matches StoredRefModel::Uuid(uuid) && uuid.len() == 16) by {
        }
    }
}

/// Whether an asset is a build dependency of what is imported just when it is none
/// of what was there, so that its dependees change.
pub open spec fn dep_changes(store: Store, metadata: MetadataModel, d: Key) -> bool {
    named_dep(store.metadata, metadata.id, d) != metadata.build_deps.contains(RefModel::Uuid(d))
}

/// The first path among references.
proof fn lemma_first_path(refs: Seq<RefModel>, n: int) -> (p: int)
    requires
        0 <= n < refs.len(),
        refs[n] is Path,
    ensures
        0 <= p <= n,
        refs[p] is Path,
        forall|i: int| 0 <= i < p ==> (#[trigger] refs[i]) is Uuid,
    decreases n,
{
    if exists|i: int| 0 <= i < n && (#[trigger] refs[i]) is Path {
        let i = choose|i: int| 0 <= i < n && (#[trigger] refs[i]) is Path;
        lemma_first_path(refs, i)
    } else {
        n
    }
}

/// The build dependencies before an update, and how the index comes to change.
proof fn lemma_update_parts(store: Store, metadata: MetadataModel, d: Key)
    requires
        record_fine(store, metadata.id),
        update_meets_no_path(store, metadata),
        forall|i: int|
            0 <= i < metadata.build_deps.len() ==> (#[trigger] metadata.build_deps[i]) is Uuid,
    ensures
        ({
            let before = stored_keys(known(store, metadata.id)->Ok_0.deps);
            let after = ref_keys(metadata.build_deps);
            &&& before.contains(d) <==> named_dep(store.metadata, metadata.id, d)
            &&& after.contains(d) <==> metadata.build_deps.contains(RefModel::Uuid(d))
            &&& not_in(after, before).contains(d) <==> after.contains(d) && !before.contains(d)
            &&& not_in(before, after).contains(d) <==> before.contains(d) && !after.contains(d)
        }),
{
    let before = stored_keys(known(store, metadata.id)->Ok_0.deps);
    let after = ref_keys(metadata.build_deps);
    lemma_record_fine(store, metadata.id);
    lemma_deps_named(store, metadata.id, d);
    lemma_ref_keys(metadata.build_deps, d);
    lemma_not_in(after, before, d);
    lemma_not_in(before, after, d);
}

/// An update goes through just when the record of the asset is missing or can be
/// read, and so can the dependees of every build dependency that is new or gone.
/// If the record cannot be read, the update says why and does nothing. Otherwise
/// it says why the dependees of one of those cannot.
pub proof fn law_update_goes_through(
    store: Store,
    import_hash: u64,
    metadata: MetadataModel,
    source: AssetSource,
    batch: Seq<Key>,
)
    requires
        names_valid(metadata),
        update_meets_no_path(store, metadata),
    ensures
        ({
            let outcome = update_outcome(store, import_hash, metadata, source, batch);
            &&& outcome.result is Ok <==> record_fine(store, metadata.id) && forall|d: Key| #[trigger]
                dep_changes(store, metadata, d) ==> dependees_of(store.dependees, d) is Ok
            &&& !record_fine(store, metadata.id) ==> {
                &&& outcome.result == Result::<(), Error>::Err(
                    unreadable(store.metadata[metadata.id])->Some_0,
                )
                &&& outcome.store == store
                &&& outcome.batch == batch
            }
            &&& record_fine(store, metadata.id) ==> (outcome.result matches Err(e) ==> exists|d: Key|
             #[trigger]
                dep_changes(store, metadata, d) && dependees_of(store.dependees, d) == Result::<
                    Seq<Key>,
                    Error,
                >::Err(e))
        }),
{
    let id = metadata.id;
    let index = store.dependees;
    let outcome = update_outcome(store, import_hash, metadata, source, batch);
    lemma_record_fine(store, id);
    if record_fine(store, id) {
        let refs = metadata.build_deps;
        let before = stored_keys(known(store, id)->Ok_0.deps);
        let after = ref_keys(refs);
        let added = not_in(after, before);
        let gone = not_in(before, after);
        let linked = link_all(index, added, id);
        if exists|i: int| 0 <= i < refs.len() && (#[trigger] refs[i]) is Path {
            let n = choose|i: int| 0 <= i < refs.len() && (#[trigger] refs[i]) is Path;
            let p = lemma_first_path(refs, n);
            let j = choose|j: int| 0 <= j < p && fails_to_link(index, #[trigger] refs[j]);
            assert(before =~= Seq::<Key>::empty());
            lemma_not_in_empty(after);
            let head = after.take(p);
            assert(head[j] == refs[j]->Uuid_0);
            lemma_link_all_fails(index, head, id, j);
            lemma_link_all_stops(index, after, id, p);
            lemma_link_all_err(index, head, id);
            let e = linked.result->Err_0;
            let i = choose|i: int|
                0 <= i < head.len() && dependees_of(index, #[trigger] head[i]) == Result::<
                    Seq<Key>,
                    Error,
                >::Err(e);
            assert(refs[i] is Uuid);
            let d = head[i];
            assert(refs[i] == RefModel::Uuid(d));
            assert(refs.contains(RefModel::Uuid(d)));
            assert(dep_changes(store, metadata, d));
        } else {
            assert forall|d: Key| #[trigger] dep_changes(store, metadata, d) <==> added.contains(d)
                || gone.contains(d) by {
                lemma_update_parts(store, metadata, d);
            }
            lemma_link_all_err(index, added, id);
            if linked.result is Err {
                let e = linked.result->Err_0;
                let i = choose|i: int|
                    0 <= i < added.len() && dependees_of(index, #[trigger] added[i]) == Result::<
                        Seq<Key>,
                        Error,
                    >::Err(e);
                assert(added.contains(added[i]));
                assert(dep_changes(store, metadata, added[i]));
            } else {
                assert forall|i: int| 0 <= i < gone.len() implies dependees_of(
                    linked.index,
                    #[trigger] gone[i],
                ) == dependees_of(index, gone[i]) by {
                    assert(gone.contains(gone[i]));
                    lemma_update_parts(store, metadata, gone[i]);
                    lemma_link_all_frame(index, added, id, gone[i]);
                }
                lemma_unlink_all_err(linked.index, gone, id);
                if outcome.result is Err {
                    let e = outcome.result->Err_0;
                    let i = choose|i: int|
                        0 <= i < gone.len() && dependees_of(linked.index, #[trigger] gone[i])
                            == Result::<Seq<Key>, Error>::Err(e);
                    assert(gone.contains(gone[i]));
                    assert(dep_changes(store, metadata, gone[i]));
                } else {
                    assert forall|d: Key| #[trigger]
                        dep_changes(store, metadata, d) implies dependees_of(index, d) is Ok by {
                        if added.contains(d) {
                            let i = choose|i: int| 0 <= i < added.len() && added[i] == d;
                            if dependees_of(index, d) is Err {
                                lemma_link_all_fails(index, added, id, i);
                            }
                        } else {
                            let i = choose|i: int| 0 <= i < gone.len() && gone[i] == d;
                            assert(dependees_of(linked.index, gone[i]) == dependees_of(
                                index,
                                gone[i],
                            ));
                        }
                    }
                }
            }
        }
    }
}

/// After an update that goes through, the record of the asset holds the metadata
/// that was imported, field by field, with the source and the hash that were
/// given. It parses, and reads back as that metadata. Every other record is as it
/// was.
pub proof fn law_update_stores_metadata(
    store: Store,
    import_hash: u64,
    metadata: MetadataModel,
    source: AssetSource,
    batch: Seq<Key>,
)
    requires
        names_valid(metadata),
        update_outcome(store, import_hash, metadata, source, batch).result is Ok,
    ensures
        ({
            let after = update_outcome(store, import_hash, metadata, source, batch).store.metadata;
            &&& after.contains_key(metadata.id)
            &&& after[metadata.id] matches Ok(record) && {
                &&& holds_metadata(record, metadata, source)
                &&& metadata.build_pipeline is None ==> record.build_pipeline == Field::<
                    Seq<u8>,
                >::Ok(Seq::empty())
                &&& record.latest_artifact == Field::<ArtifactModel>::Ok(
                    ArtifactModel::Id(Ok(spec_u64_to_le_bytes(import_hash))),
                )
                &&& record_parses(record)
                &&& reads_back(parsed_record(record), metadata)
            }
            &&& forall|a: Key|
                a != metadata.id ==> {
                    &&& #[trigger] after.contains_key(a) <==> store.metadata.contains_key(a)
                    &&& after.contains_key(a) ==> after[a] == store.metadata[a]
                }
        }),
{
    let hash = Some(spec_u64_to_le_bytes(import_hash));
    law_written_fields(blank_record(), metadata, hash, source);
    law_metadata_read_back(metadata, hash, source);
    let record = imported_record(import_hash, metadata, source);
    let parsed = parsed_record(record);
    assert(parsed == read_back(metadata));
    assert forall|i: int| 0 <= i < metadata.search_tags.len() implies {
        let tag = #[trigger] parsed.search_tags[i];
        &&& tag.0 == metadata.search_tags[i].0
        &&& tag.1 == if metadata.search_tags[i].1 == Some(Seq::<char>::empty()) {
            None
        } else {
            metadata.search_tags[i].1
        }
    } by {
        if let Some(value) = metadata.search_tags[i].1 {
            if value.len() == 0 {
                assert(value =~= Seq::<char>::empty());
            }
        }
    }
}

/// Whether `read` is what metadata reads back as: the same id, type, references and
/// tags, but that an empty value is none. There is a pipeline just when there was.
pub open spec fn reads_back(read: MetadataModel, metadata: MetadataModel) -> bool {
    &&& read.id == metadata.id
    &&& read.asset_type == metadata.asset_type
    &&& read.build_deps == metadata.build_deps
    &&& read.load_deps == metadata.load_deps
    &&& read.build_pipeline is Some <==> metadata.build_pipeline is Some
    &&& read.search_tags.len() == metadata.search_tags.len()
    &&& forall|i: int|
        0 <= i < metadata.search_tags.len() ==> {
            let tag = #[trigger] read.search_tags[i];
            &&& tag.0 == metadata.search_tags[i].0
            &&& tag.1 == if metadata.search_tags[i].1 == Some(Seq::<char>::empty()) {
                None
            } else {
                metadata.search_tags[i].1
            }
        }
}

/// Two imports that go through leave different records unless they were given the
/// same hash, source and metadata, tags with an empty value counting as tags
/// without one.
pub proof fn law_updates_told_apart(
    store: Store,
    one_hash: u64,
    one: MetadataModel,
    one_source: AssetSource,
    other_hash: u64,
    other: MetadataModel,
    other_source: AssetSource,
    batch: Seq<Key>,
)
    requires
        names_valid(one),
        names_valid(other),
        one.id == other.id,
        ({
            let a = update_outcome(store, one_hash, one, one_source, batch);
            let b = update_outcome(store, other_hash, other, other_source, batch);
            &&& a.result is Ok
            &&& b.result is Ok
            &&& a.store.metadata[one.id] == b.store.metadata[one.id]
        }),
    ensures
        one_hash == other_hash,
        one_source == other_source,
        one.asset_type == other.asset_type,
        one.build_deps == other.build_deps,
        one.load_deps == other.load_deps,
        one.build_pipeline == other.build_pipeline,
        one.search_tags.len() == other.search_tags.len(),
        forall|i: int|
            0 <= i < one.search_tags.len() ==> (#[trigger] one.search_tags[i]).0
                == other.search_tags[i].0,
{
    law_update_stores_metadata(store, one_hash, one, one_source, batch);
    law_update_stores_metadata(store, other_hash, other, other_source, batch);
    let a = update_outcome(store, one_hash, one, one_source, batch).store.metadata[one.id]->Ok_0;
    lemma_auto_spec_u64_to_from_le_bytes();
    assert(spec_u64_from_le_bytes(spec_u64_to_le_bytes(one_hash)) == one_hash);
    assert(spec_u64_from_le_bytes(spec_u64_to_le_bytes(other_hash)) == other_hash);
    if one.build_pipeline is Some && other.build_pipeline is None {
        assert(one.build_pipeline->Some_0.len() == 16);
    }
    if other.build_pipeline is Some && one.build_pipeline is None {
        assert(other.build_pipeline->Some_0.len() == 16);
    }
    let parsed = parsed_record(a);
    assert forall|i: int| 0 <= i < one.search_tags.len() implies (#[trigger] one.search_tags[i]).0
        == other.search_tags[i].0 by {
        assert(parsed.search_tags[i].0 == one.search_tags[i].0);
        assert(parsed.search_tags[i].0 == other.search_tags[i].0);
    }
}

/// What an update does to the dependees of each asset. One that is a build
/// dependency before and after, or never, keeps its entry. Behind the dependees of
/// a new one the asset is put, as often as it is named. Out of those of one that
/// is gone it is taken; the others stay, as often as they were there, and if none
/// is left there is no entry.
pub proof fn law_update_lists(
    store: Store,
    import_hash: u64,
    metadata: MetadataModel,
    source: AssetSource,
    batch: Seq<Key>,
    d: Key,
)
    requires
        names_valid(metadata),
        update_meets_no_path(store, metadata),
        update_outcome(store, import_hash, metadata, source, batch).result is Ok,
    ensures
        ({
            let id = metadata.id;
            let after = update_outcome(store, import_hash, metadata, source, batch).store.dependees;
            let named = metadata.build_deps.contains(RefModel::Uuid(d));
            &&& !dep_changes(store, metadata, d) ==> {
                &&& after.contains_key(d) <==> store.dependees.contains_key(d)
                &&& after.contains_key(d) ==> after[d] == store.dependees[d]
            }
            &&& dep_changes(store, metadata, d) ==> (dependees_of(store.dependees, d) matches Ok(list)
                && (dependees_of(after, d) matches Ok(now) && {
                &&& named ==> now == list + repeated(
                    id,
                    metadata.build_deps.to_multiset().count(RefModel::Uuid(d)),
                )
                &&& !named ==> taken_out(list, now, id) && (after.contains_key(d) <==> now.len() > 0)
            }))
        }),
{
    let id = metadata.id;
    let index = store.dependees;
    let outcome = update_outcome(store, import_hash, metadata, source, batch);
    law_update_goes_through(store, import_hash, metadata, source, batch);
    lemma_names_alone(store, import_hash, metadata, source, batch);
    let before = stored_keys(known(store, id)->Ok_0.deps);
    let after = ref_keys(metadata.build_deps);
    let added = not_in(after, before);
    let gone = not_in(before, after);
    let linked = link_all(index, added, id).index;
    lemma_update_parts(store, metadata, d);
    lemma_ref_keys(metadata.build_deps, d);
    if added.contains(d) {
        assert(dep_changes(store, metadata, d));
        lemma_not_in_count(after, before, d);
        lemma_link_all_adds(index, added, id, d);
        lemma_read_padded(index, linked, id, d, added.to_multiset().count(d));
        lemma_unlink_all_frame(linked, gone, id, d);
    } else {
        lemma_link_all_frame(index, added, id, d);
        if gone.contains(d) {
            assert(dep_changes(store, metadata, d));
            lemma_unlink_all_takes_out(linked, gone, id, d);
            law_taken_out(listed(index, d), id);
        } else {
            lemma_unlink_all_frame(linked, gone, id, d);
        }
    }
}

/// Whether `now` is `list` with every `id` taken out: any other name is there as
/// often as before, and where `list` holds `id` once, the last name takes its
/// place.
pub open spec fn taken_out(list: Seq<Key>, now: Seq<Key>, id: Key) -> bool {
    &&& !now.contains(id)
    &&& forall|key: Key|
        key != id ==> #[trigger] now.to_multiset().count(key) == list.to_multiset().count(key)
    &&& !list.contains(id) ==> now == list
    &&& forall|i: int|
        0 <= i < list.len() && list[i] == id && list.to_multiset().count(id) == 1 ==> now
            == #[trigger] list.update(i, list.last()).drop_last()
}

/// An update that goes through was given names alone as build dependencies.
proof fn lemma_names_alone(
    store: Store,
    import_hash: u64,
    metadata: MetadataModel,
    source: AssetSource,
    batch: Seq<Key>,
)
    requires
        names_valid(metadata),
        update_meets_no_path(store, metadata),
        update_outcome(store, import_hash, metadata, source, batch).result is Ok,
    ensures
        record_fine(store, metadata.id),
        forall|i: int|
            0 <= i < metadata.build_deps.len() ==> (#[trigger] metadata.build_deps[i]) is Uuid,
{
    law_update_goes_through(store, import_hash, metadata, source, batch);
    law_update_allowed(store, metadata);
    let refs = metadata.build_deps;
    if !store.metadata.contains_key(metadata.id) {
        assert forall|i: int| 0 <= i < refs.len() implies (#[trigger] refs[i]) is Uuid by {
            if refs[i] is Path {
                let j = choose|j: int|
                    0 <= j < i && (#[trigger] refs[j] matches RefModel::Uuid(uuid) && dependees_of(
                        store.dependees,
                        uuid,
                    ) is Err);
                let d = refs[j]->Uuid_0;
                assert(refs[j] == RefModel::Uuid(d));
                assert(refs.contains(RefModel::Uuid(d)));
                assert(dep_changes(store, metadata, d));
            }
        }
    }
}

/// An update puts the asset behind the batch just when it goes through and the
/// record that was there does not name the artifact by the same hash. The change
/// log is left alone.
pub proof fn law_update_batch(
    store: Store,
    import_hash: u64,
    metadata: MetadataModel,
    source: AssetSource,
    batch: Seq<Key>,
)
    ensures
        ({
            let outcome = update_outcome(store, import_hash, metadata, source, batch);
            let same = store.metadata.contains_key(metadata.id) && (
            store.metadata[metadata.id] matches Ok(record) && record.latest_artifact == Field::<
                ArtifactModel,
            >::Ok(ArtifactModel::Id(Ok(spec_u64_to_le_bytes(import_hash)))));
            &&& outcome.result is Ok && !same ==> outcome.batch == batch.push(metadata.id)
            &&& outcome.result is Err || same ==> outcome.batch == batch
            &&& outcome.store.changes == store.changes
        }),
{
}

/// A removal of an asset whose build dependencies cannot be read says why and does
/// nothing. Any other takes the record away, notes the asset in the batch if there
/// was one, and goes through just when the dependees of every build dependency of
/// the asset can be read. If not, it says why those of one cannot.
pub proof fn law_remove_goes_through(store: Store, id: Key, batch: Seq<Key>)
    requires
        deps_to_remove(store, id) matches Ok(refs) ==> all_uuids(refs),
    ensures
        ({
            let outcome = remove_outcome(store, id, batch);
            let why = if !store.metadata.contains_key(id) {
                None
            } else {
                match store.metadata[id] {
                    Err(e) => Some(e),
                    Ok(record) => match record.build_deps {
                        Err(e) => Some(e),
                        Ok(_) => None,
                    },
                }
            };
            match why {
                Some(e) => {
                    &&& outcome.result == Result::<(), Error>::Err(Error::Read(e))
                    &&& outcome.store == store
                    &&& outcome.batch == batch
                },
                None => {
                    &&& outcome.store.metadata == store.metadata.remove(id)
                    &&& outcome.store.changes == store.changes
                    &&& outcome.batch == if store.metadata.contains_key(id) {
                        batch.push(id)
                    } else {
                        batch
                    }
                    &&& outcome.result is Ok <==> forall|d: Key| #[trigger]
                        named_dep(store.metadata, id, d) ==> dependees_of(store.dependees, d) is Ok
                    &&& outcome.result matches Err(e) ==> exists|d: Key| #[trigger]
                        named_dep(store.metadata, id, d) && dependees_of(store.dependees, d)
                            == Result::<Seq<Key>, Error>::Err(e)
                },
            }
        }),
{
    let outcome = remove_outcome(store, id, batch);
    if let Ok(refs) = deps_to_remove(store, id) {
        let gone = stored_keys(refs);
        assert(gone == deps(store, id));
        lemma_unlink_all_err(store.dependees, gone, id);
        if outcome.result is Err {
            let e = outcome.result->Err_0;
            let i = choose|i: int|
                0 <= i < gone.len() && dependees_of(store.dependees, #[trigger] gone[i])
                    == Result::<Seq<Key>, Error>::Err(e);
            assert(gone.contains(gone[i]));
            lemma_deps_named(store, id, gone[i]);
            assert(named_dep(store.metadata, id, gone[i]));
        } else {
            assert forall|d: Key| #[trigger]
                named_dep(store.metadata, id, d) implies dependees_of(store.dependees, d) is Ok by {
                lemma_deps_named(store, id, d);
                let i = choose|i: int| 0 <= i < gone.len() && gone[i] == d;
                assert(dependees_of(store.dependees, gone[i]) is Ok);
            }
        }
    }
}

/// What a removal that goes through does to the dependees of each asset: out of
/// those of a build dependency the asset is taken, and any other entry stays.
pub proof fn law_remove_lists(store: Store, id: Key, batch: Seq<Key>, d: Key)
    requires
        deps_to_remove(store, id) matches Ok(refs) ==> all_uuids(refs),
        remove_outcome(store, id, batch).result is Ok,
    ensures
        ({
            let after = remove_outcome(store, id, batch).store.dependees;
            &&& !named_dep(store.metadata, id, d) ==> {
                &&& after.contains_key(d) <==> store.dependees.contains_key(d)
                &&& after.contains_key(d) ==> after[d] == store.dependees[d]
            }
            &&& named_dep(store.metadata, id, d) ==> (dependees_of(store.dependees, d) matches Ok(list)
                && (dependees_of(after, d) matches Ok(now) && taken_out(list, now, id) && (
            after.contains_key(d) <==> now.len() > 0)))
        }),
{
    let gone = stored_keys(deps_to_remove(store, id)->Ok_0);
    assert(gone == deps(store, id));
    lemma_deps_named(store, id, d);
    if gone.contains(d) {
        lemma_unlink_all_takes_out(store.dependees, gone, id, d);
        law_taken_out(listed(store.dependees, d), id);
    } else {
        lemma_unlink_all_frame(store.dependees, gone, id, d);
    }
}

/// Whether an index has the entry for `d` that another has, or neither has one.
pub open spec fn entry_kept(before: IndexModel, after: IndexModel, d: Key) -> bool {
    &&& after.contains_key(d) <==> before.contains_key(d)
    &&& after.contains_key(d) ==> after[d] == before[d]
}

/// Whether `id` was put behind the dependees of `d` as often as `done` names `d`.
pub open spec fn linked_so_far(
    before: IndexModel,
    after: IndexModel,
    id: Key,
    done: Seq<RefModel>,
    d: Key,
) -> bool {
    dependees_of(before, d) matches Ok(list) && dependees_of(after, d) == Result::<
        Seq<Key>,
        Error,
    >::Ok(list + repeated(id, done.to_multiset().count(RefModel::Uuid(d))))
}

/// Whether every `id` was taken out of the dependees of `d`.
pub open spec fn unlinked(before: IndexModel, after: IndexModel, id: Key, d: Key) -> bool {
    dependees_of(before, d) matches Ok(list) && (dependees_of(after, d) matches Ok(now) && taken_out(
        list,
        now,
        id,
    ) && (after.contains_key(d) <==> now.len() > 0))
}

/// Whether an update stopped at the new build dependency in place `i` of the
/// metadata, because its dependees cannot be read: it is the first such one, the
/// asset was linked to the new ones before it, and all else is as it was.
pub open spec fn stopped_linking(
    store: Store,
    metadata: MetadataModel,
    after: IndexModel,
    e: Error,
    i: int,
) -> bool {
    let refs = metadata.build_deps;
    let id = metadata.id;
    let done = refs.take(i);
    &&& 0 <= i < refs.len()
    &&& refs[i] matches RefModel::Uuid(uuid) && !named_dep(store.metadata, id, uuid) && dependees_of(
        store.dependees,
        uuid,
    ) == Result::<Seq<Key>, Error>::Err(e)
    &&& forall|j: int|
        0 <= j < i ==> (#[trigger] refs[j] matches RefModel::Uuid(uuid) && (named_dep(
            store.metadata,
            id,
            uuid,
        ) || dependees_of(store.dependees, uuid) is Ok))
    &&& forall|d: Key| #[trigger] after_links(store, id, after, done, d)
}

/// What becomes of the dependees of `d` when an asset was linked to those in `done`
/// that are new.
pub open spec fn after_links(
    store: Store,
    id: Key,
    after: IndexModel,
    done: Seq<RefModel>,
    d: Key,
) -> bool {
    if done.contains(RefModel::Uuid(d)) && !named_dep(store.metadata, id, d) {
        linked_so_far(store.dependees, after, id, done, d)
    } else {
        entry_kept(store.dependees, after, d)
    }
}

/// Whether an update stopped at the build dependency in place `i` of the record
/// that is gone from the metadata, because its dependees cannot be read: it is the
/// first such one, the asset was linked to all new ones and unlinked from those
/// gone before it, and all else is as it was.
pub open spec fn stopped_unlinking(
    store: Store,
    metadata: MetadataModel,
    after: IndexModel,
    e: Error,
    i: int,
) -> bool {
    let refs = metadata.build_deps;
    let id = metadata.id;
    let stored = store.metadata[id]->Ok_0.build_deps->Ok_0;
    let done = stored.take(i);
    &&& 0 <= i < stored.len()
    &&& stored[i] matches StoredRefModel::Uuid(uuid) && !refs.contains(RefModel::Uuid(uuid))
        && dependees_of(store.dependees, uuid) == Result::<Seq<Key>, Error>::Err(e)
    &&& forall|j: int|
        0 <= j < i ==> (#[trigger] stored[j] matches StoredRefModel::Uuid(uuid) && (refs.contains(
            RefModel::Uuid(uuid),
        ) || dependees_of(store.dependees, uuid) is Ok))
    &&& forall|d: Key| #[trigger] after_unlinks(store, id, after, refs, done, d)
}

/// What becomes of the dependees of `d` when an asset was linked to those in `refs`
/// that are new, and unlinked from those in `done` that are gone.
pub open spec fn after_unlinks(
    store: Store,
    id: Key,
    after: IndexModel,
    refs: Seq<RefModel>,
    done: Seq<StoredRefModel>,
    d: Key,
) -> bool {
    if refs.contains(RefModel::Uuid(d)) && !named_dep(store.metadata, id, d) {
        linked_so_far(store.dependees, after, id, refs, d)
    } else if done.contains(StoredRefModel::Uuid(d)) && !refs.contains(RefModel::Uuid(d)) {
        unlinked(store.dependees, after, id, d)
    } else {
        entry_kept(store.dependees, after, d)
    }
}

/// The names of a list that another lacks, up to one more place.
proof fn lemma_not_in_take(list: Seq<Key>, other: Seq<Key>, n: int)
    requires
        0 <= n < list.len(),
    ensures
        not_in(list.take(n + 1), other) == if other.contains(list[n]) {
            not_in(list.take(n), other)
        } else {
            not_in(list.take(n), other).push(list[n])
        },
{
    reveal(Seq::filter);
    assert(list.take(n + 1).drop_last() =~= list.take(n));
    assert(list.take(n + 1).last() == list[n]);
}

/// Where a run of links stopped.
proof fn lemma_link_stops(index: IndexModel, list: Seq<Key>, other: Seq<Key>, id: Key, n: int) -> (i:
    int)
    requires
        0 <= n <= list.len(),
        link_all(index, not_in(list.take(n), other), id).result is Err,
    ensures
        0 <= i < n,
        !other.contains(list[i]),
        ({
            let upto = link_all(index, not_in(list.take(i), other), id);
            let all = link_all(index, not_in(list.take(n), other), id);
            &&& upto.result is Ok
            &&& upto.index == all.index
            &&& dependees_of(upto.index, list[i]) == Result::<Seq<Key>, Error>::Err(
                all.result->Err_0,
            )
        }),
    decreases n,
{
    if n == 0 {
        reveal(Seq::filter);
        assert(not_in(list.take(0), other) =~= Seq::<Key>::empty());
        0
    } else {
        lemma_not_in_take(list, other, n - 1);
        let before = not_in(list.take(n - 1), other);
        if link_all(index, before, id).result is Err {
            assert(before.push(list[n - 1]).drop_last() =~= before);
            lemma_link_stops(index, list, other, id, n - 1)
        } else {
            assert(before.push(list[n - 1]).drop_last() =~= before);
            n - 1
        }
    }
}

/// Where a run of unlinks stopped.
proof fn lemma_unlink_stops(index: IndexModel, list: Seq<Key>, other: Seq<Key>, id: Key, n: int) -> (i:
    int)
    requires
        0 <= n <= list.len(),
        unlink_all(index, not_in(list.take(n), other), id).result is Err,
    ensures
        0 <= i < n,
        !other.contains(list[i]),
        ({
            let upto = unlink_all(index, not_in(list.take(i), other), id);
            let all = unlink_all(index, not_in(list.take(n), other), id);
            &&& upto.result is Ok
            &&& upto.index == all.index
            &&& dependees_of(upto.index, list[i]) == Result::<Seq<Key>, Error>::Err(
                all.result->Err_0,
            )
        }),
    decreases n,
{
    if n == 0 {
        reveal(Seq::filter);
        assert(not_in(list.take(0), other) =~= Seq::<Key>::empty());
        0
    } else {
        lemma_not_in_take(list, other, n - 1);
        let before = not_in(list.take(n - 1), other);
        assert(before.push(list[n - 1]).drop_last() =~= before);
        if unlink_all(index, before, id).result is Err {
            lemma_unlink_stops(index, list, other, id, n - 1)
        } else {
            n - 1
        }
    }
}

/// What links to the first of some references did to the dependees of `d`.
proof fn lemma_linked_upto(
    index: IndexModel,
    refs: Seq<RefModel>,
    before: Seq<Key>,
    id: Key,
    i: int,
    d: Key,
)
    requires
        id.len() == UUID_LEN,
        0 <= i <= refs.len(),
        forall|j: int| 0 <= j < i ==> (#[trigger] refs[j]) is Uuid,
        link_all(index, not_in(ref_keys(refs).take(i), before), id).result is Ok,
    ensures
        ({
            let now = link_all(index, not_in(ref_keys(refs).take(i), before), id).index;
            if refs.take(i).contains(RefModel::Uuid(d)) && !before.contains(d) {
                linked_so_far(index, now, id, refs.take(i), d)
            } else {
                entry_kept(index, now, d)
            }
        }),
{
    let done = refs.take(i);
    let keys = ref_keys(refs).take(i);
    assert(ref_keys(done) =~= keys);
    let added = not_in(keys, before);
    let now = link_all(index, added, id).index;
    assert forall|j: int| 0 <= j < done.len() implies (#[trigger] done[j]) is Uuid by {
        assert(done[j] == refs[j]);
    }
    lemma_ref_keys(done, d);
    lemma_not_in(keys, before, d);
    if added.contains(d) {
        let k = choose|k: int| 0 <= k < added.len() && added[k] == d;
        if dependees_of(index, d) is Err {
            lemma_link_all_fails(index, added, id, k);
        }
        lemma_not_in_count(keys, before, d);
        lemma_link_all_adds(index, added, id, d);
        lemma_read_padded(index, now, id, d, added.to_multiset().count(d));
    } else {
        lemma_link_all_frame(index, added, id, d);
    }
}

/// An update that fails while it links.
proof fn lemma_stopped_linking(store: Store, metadata: MetadataModel, e: Error) -> (i: int)
    requires
        names_valid(metadata),
        update_meets_no_path(store, metadata),
        record_fine(store, metadata.id),
        ({
            let before = stored_keys(known(store, metadata.id)->Ok_0.deps);
            link_all(
                store.dependees,
                not_in(ref_keys(metadata.build_deps), before),
                metadata.id,
            ).result == Result::<(), Error>::Err(e)
        }),
    ensures
        ({
            let before = stored_keys(known(store, metadata.id)->Ok_0.deps);
            let now = link_all(
                store.dependees,
                not_in(ref_keys(metadata.build_deps), before),
                metadata.id,
            );
            stopped_linking(store, metadata, now.index, e, i)
        }),
{
    let id = metadata.id;
    let index = store.dependees;
    lemma_record_fine(store, id);
    let refs = metadata.build_deps;
    let before = stored_keys(known(store, id)->Ok_0.deps);
    let after = ref_keys(refs);
    assert forall|d: Key| #[trigger] before.contains(d) <==> named_dep(store.metadata, id, d) by {
        lemma_deps_named(store, id, d);
    }
    let n = lemma_reach_of_links(store, metadata);
    let i = lemma_link_stops(index, after, before, id, n);
    let now = link_all(index, not_in(after.take(i), before), id);
    lemma_link_all_err(index, not_in(after.take(i), before), id);
    let u = after[i];
    assert(refs[i] is Uuid);
    assert(refs[i] == RefModel::Uuid(u));
    assert(dependees_of(now.index, u) is Err);
    assert forall|j: int| 0 <= j < i implies (#[trigger] refs[j] matches RefModel::Uuid(uuid) && (
    named_dep(store.metadata, id, uuid) || dependees_of(index, uuid) is Ok)) by {
        assert(refs[j] is Uuid);
        let d = refs[j]->Uuid_0;
        lemma_linked_upto(index, refs, before, id, i, d);
        assert(refs.take(i)[j] == RefModel::Uuid(d));
        assert(before.contains(d) <==> named_dep(store.metadata, id, d));
    }
    assert forall|d: Key| #[trigger] after_links(store, id, now.index, refs.take(i), d) by {
        lemma_linked_upto(index, refs, before, id, i, d);
        assert(before.contains(d) <==> named_dep(store.metadata, id, d));
    }
    i
}

/// An update that fails while it unlinks.
proof fn lemma_stopped_unlinking(store: Store, metadata: MetadataModel, e: Error) -> (i: int)
    requires
        names_valid(metadata),
        update_meets_no_path(store, metadata),
        record_fine(store, metadata.id),
        ({
            let before = stored_keys(known(store, metadata.id)->Ok_0.deps);
            let after = ref_keys(metadata.build_deps);
            let linked = link_all(store.dependees, not_in(after, before), metadata.id);
            &&& linked.result is Ok
            &&& unlink_all(linked.index, not_in(before, after), metadata.id).result == Result::<
                (),
                Error,
            >::Err(e)
        }),
    ensures
        ({
            let before = stored_keys(known(store, metadata.id)->Ok_0.deps);
            let after = ref_keys(metadata.build_deps);
            let linked = link_all(store.dependees, not_in(after, before), metadata.id);
            let now = unlink_all(linked.index, not_in(before, after), metadata.id);
            stopped_unlinking(store, metadata, now.index, e, i)
        }),
{
    let id = metadata.id;
    let index = store.dependees;
    lemma_record_fine(store, id);
    let refs = metadata.build_deps;
    let before = stored_keys(known(store, id)->Ok_0.deps);
    let after = ref_keys(refs);
    let linked = link_all(index, not_in(after, before), id);
    assert forall|d: Key| #[trigger] before.contains(d) <==> named_dep(store.metadata, id, d) by {
        lemma_deps_named(store, id, d);
    }
    lemma_links_done_names(store, metadata);
    let stored = known(store, id)->Ok_0.deps;
    if !store.metadata.contains_key(id) {
        assert(before =~= Seq::<Key>::empty());
        reveal(Seq::filter);
        assert(not_in(before, after) =~= Seq::<Key>::empty());
        assert(false);
    }
    assert(store.metadata[id]->Ok_0.build_deps->Ok_0 == stored);
    assert(before.take(before.len() as int) =~= before);
    let i = lemma_unlink_stops(linked.index, before, after, id, before.len() as int);
    let gone = not_in(before.take(i), after);
    let now = unlink_all(linked.index, gone, id);
    assert(after.take(after.len() as int) =~= after);
    assert(refs.take(refs.len() as int) =~= refs);
    lemma_stored_names_alone(store, metadata, before, stored);
    assert forall|d: Key| #[trigger] before.contains(d) implies entry_kept(index, linked.index, d) by {
        lemma_linked_upto(index, refs, before, id, refs.len() as int, d);
    }
    let u = before[i];
    assert(stored[i] == StoredRefModel::Uuid(u));
    assert(before.contains(u));
    lemma_ref_keys(refs, u);
    lemma_unlink_all_err(linked.index, gone, id);
    assert(dependees_of(now.index, u) is Err);
    assert forall|j: int| 0 <= j < i implies (#[trigger] stored[j] matches StoredRefModel::Uuid(
        uuid,
    ) && (refs.contains(RefModel::Uuid(uuid)) || dependees_of(index, uuid) is Ok)) by {
        let d = before[j];
        assert(stored[j] == StoredRefModel::Uuid(d));
        assert(before.contains(d));
        lemma_ref_keys(refs, d);
        lemma_not_in(before.take(i), after, d);
        assert(before.take(i)[j] == d);
        if !after.contains(d) {
            lemma_unlink_all_takes_out(linked.index, gone, id, d);
        }
    }
    assert forall|d: Key| #[trigger]
        after_unlinks(store, id, now.index, refs, stored.take(i), d) by {
        assert(before.contains(d) <==> named_dep(store.metadata, id, d));
        lemma_ref_keys(refs, d);
        lemma_not_in(before.take(i), after, d);
        lemma_taken_names(stored, before, i, d);
        lemma_linked_upto(index, refs, before, id, refs.len() as int, d);
        if before.take(i).contains(d) {
            let m = choose|m: int| 0 <= m < before.take(i).len() && before.take(i)[m] == d;
            assert(before[m] == d);
            assert(before.contains(d));
        }
        if gone.contains(d) {
            lemma_unlink_all_takes_out(linked.index, gone, id, d);
            law_taken_out(listed(index, d), id);
        } else {
            lemma_unlink_all_frame(linked.index, gone, id, d);
        }
    }
    i
}

/// Where an update stops that fails though the record of the asset is fine, and
/// what it did up to there.
pub proof fn law_update_stops(
    store: Store,
    import_hash: u64,
    metadata: MetadataModel,
    source: AssetSource,
    batch: Seq<Key>,
    e: Error,
)
    requires
        names_valid(metadata),
        update_meets_no_path(store, metadata),
        record_fine(store, metadata.id),
        update_outcome(store, import_hash, metadata, source, batch).result == Result::<
            (),
            Error,
        >::Err(e),
    ensures
        ({
            let outcome = update_outcome(store, import_hash, metadata, source, batch);
            let after = outcome.store.dependees;
            &&& outcome.store.metadata == store.metadata
            &&& outcome.store.changes == store.changes
            &&& outcome.batch == batch
            &&& (exists|i: int| stopped_linking(store, metadata, after, e, i)) || (exists|i: int|
                stopped_unlinking(store, metadata, after, e, i))
        }),
{
    lemma_record_fine(store, metadata.id);
    let before = stored_keys(known(store, metadata.id)->Ok_0.deps);
    let linked = link_all(
        store.dependees,
        not_in(ref_keys(metadata.build_deps), before),
        metadata.id,
    );
    let after = update_outcome(store, import_hash, metadata, source, batch).store.dependees;
    if linked.result is Err {
        let i = lemma_stopped_linking(store, metadata, e);
        assert(stopped_linking(store, metadata, after, e, i));
    } else {
        let i = lemma_stopped_unlinking(store, metadata, e);
        assert(stopped_unlinking(store, metadata, after, e, i));
    }
}

/// How far links can get: to the first path, or through all references.
proof fn lemma_reach_of_links(store: Store, metadata: MetadataModel) -> (n: int)
    requires
        record_fine(store, metadata.id),
        update_meets_no_path(store, metadata),
        ({
            let before = stored_keys(known(store, metadata.id)->Ok_0.deps);
            link_all(
                store.dependees,
                not_in(ref_keys(metadata.build_deps), before),
                metadata.id,
            ).result is Err
        }),
    ensures
        0 <= n <= metadata.build_deps.len(),
        forall|i: int| 0 <= i < n ==> (#[trigger] metadata.build_deps[i]) is Uuid,
        ({
            let before = stored_keys(known(store, metadata.id)->Ok_0.deps);
            let after = ref_keys(metadata.build_deps);
            link_all(store.dependees, not_in(after.take(n), before), metadata.id) == link_all(
                store.dependees,
                not_in(after, before),
                metadata.id,
            )
        }),
{
    let refs = metadata.build_deps;
    let id = metadata.id;
    let index = store.dependees;
    let before = stored_keys(known(store, id)->Ok_0.deps);
    let after = ref_keys(refs);
    lemma_record_fine(store, id);
    if exists|i: int| 0 <= i < refs.len() && (#[trigger] refs[i]) is Path {
        let k = choose|i: int| 0 <= i < refs.len() && (#[trigger] refs[i]) is Path;
        let p = lemma_first_path(refs, k);
        let j = choose|j: int| 0 <= j < p && fails_to_link(index, #[trigger] refs[j]);
        assert(before =~= Seq::<Key>::empty());
        lemma_not_in_empty(after);
        lemma_not_in_empty(after.take(p));
        assert(after.take(p)[j] == refs[j]->Uuid_0);
        lemma_link_all_fails(index, after.take(p), id, j);
        lemma_link_all_stops(index, after, id, p);
        p
    } else {
        assert(after.take(refs.len() as int) =~= after);
        refs.len() as int
    }
}

/// Links that all went through were to names.
proof fn lemma_links_done_names(store: Store, metadata: MetadataModel)
    requires
        record_fine(store, metadata.id),
        update_meets_no_path(store, metadata),
        ({
            let before = stored_keys(known(store, metadata.id)->Ok_0.deps);
            link_all(
                store.dependees,
                not_in(ref_keys(metadata.build_deps), before),
                metadata.id,
            ).result is Ok
        }),
    ensures
        forall|i: int|
            0 <= i < metadata.build_deps.len() ==> (#[trigger] metadata.build_deps[i]) is Uuid,
{
    let refs = metadata.build_deps;
    lemma_record_fine(store, metadata.id);
    if !store.metadata.contains_key(metadata.id) {
        let after = ref_keys(refs);
        assert(stored_keys(known(store, metadata.id)->Ok_0.deps) =~= Seq::<Key>::empty());
        lemma_not_in_empty(after);
        assert forall|i: int| 0 <= i < refs.len() implies (#[trigger] refs[i]) is Uuid by {
            if refs[i] is Path {
                let j = choose|j: int|
                    0 <= j < i && fails_to_link(store.dependees, #[trigger] refs[j]);
                assert(after[j] == refs[j]->Uuid_0);
                lemma_link_all_fails(store.dependees, after, metadata.id, j);
            }
        }
    }
}

/// The stored references are the names before.
proof fn lemma_stored_names_alone(
    store: Store,
    metadata: MetadataModel,
    before: Seq<Key>,
    stored: Seq<StoredRefModel>,
)
    requires
        store.metadata.contains_key(metadata.id),
        known(store, metadata.id) matches Ok(k) && k.deps == stored,
        before == stored_keys(stored),
        update_meets_no_path(store, metadata),
    ensures
        before.len() == stored.len(),
        forall|i: int| 0 <= i < stored.len() ==> #[trigger] stored[i] == StoredRefModel::Uuid(before[i]),
{
    assert forall|i: int| 0 <= i < stored.len() implies #[trigger] stored[i] == StoredRefModel::Uuid(
        before[i],
    ) by {
        assert(is_uuid(stored[i]));
    }
}

/// The first names before are those of the first stored references.
proof fn lemma_taken_names(stored: Seq<StoredRefModel>, before: Seq<Key>, i: int, d: Key)
    requires
        before.len() == stored.len(),
        0 <= i <= stored.len(),
        forall|k: int| 0 <= k < stored.len() ==> #[trigger] stored[k] == StoredRefModel::Uuid(before[k]),
    ensures
        stored.take(i).contains(StoredRefModel::Uuid(d)) <==> before.take(i).contains(d),
{
    if stored.take(i).contains(StoredRefModel::Uuid(d)) {
        let k = choose|k: int|
            0 <= k < stored.take(i).len() && stored.take(i)[k] == StoredRefModel::Uuid(d);
        assert(stored[k] == StoredRefModel::Uuid(before[k]));
        assert(before.take(i)[k] == d);
    }
    if before.take(i).contains(d) {
        let k = choose|k: int| 0 <= k < before.take(i).len() && before.take(i)[k] == d;
        assert(stored[k] == StoredRefModel::Uuid(before[k]));
        assert(stored.take(i)[k] == StoredRefModel::Uuid(d));
    }
}

/// Where a removal stops that fails after the record is gone, and what it did up to
/// there: at the first build dependency whose dependees cannot be read, after it
/// took the asset out of those of the ones before.
pub proof fn law_remove_stops(store: Store, id: Key, batch: Seq<Key>, e: Error)
    requires
        deps_to_remove(store, id) matches Ok(refs) && all_uuids(refs),
        remove_outcome(store, id, batch).result == Result::<(), Error>::Err(e),
    ensures
        ({
            let stored = store.metadata[id]->Ok_0.build_deps->Ok_0;
            let after = remove_outcome(store, id, batch).store.dependees;
            &&& store.metadata.contains_key(id)
            &&& exists|i: int|
                {
                    &&& 0 <= i < stored.len()
                    &&& #[trigger] stored[i] matches StoredRefModel::Uuid(uuid) && dependees_of(
                        store.dependees,
                        uuid,
                    ) == Result::<Seq<Key>, Error>::Err(e)
                    &&& forall|d: Key| #[trigger]
                        after_unlinks(store, id, after, Seq::empty(), stored.take(i), d)
                }
        }),
{
    let stored = deps_to_remove(store, id)->Ok_0;
    let before = stored_keys(stored);
    let none = Seq::<Key>::empty();
    let index = store.dependees;
    let after = remove_outcome(store, id, batch).store.dependees;
    assert(before.take(before.len() as int) =~= before);
    lemma_not_in_empty(before);
    let i = lemma_unlink_stops(index, before, none, id, before.len() as int);
    let gone = before.take(i);
    lemma_not_in_empty(gone);
    lemma_unlink_all_err(index, gone, id);
    assert(unlink_all(index, gone, id).index == after);
    assert(dependees_of(after, before[i]) is Err);
    if !store.metadata.contains_key(id) {
        assert(before.len() == 0);
    }
    assert forall|k: int| 0 <= k < stored.len() implies #[trigger] stored[k] == StoredRefModel::Uuid(
        before[k],
    ) by {
        assert(is_uuid(stored[k]));
    }
    assert forall|d: Key| #[trigger]
        after_unlinks(store, id, after, Seq::empty(), stored.take(i), d) by {
        lemma_taken_names(stored, before, i, d);
        if gone.contains(d) {
            lemma_unlink_all_takes_out(index, gone, id, d);
            law_taken_out(listed(index, d), id);
        } else {
            lemma_unlink_all_frame(index, gone, id, d);
        }
    }
    assert(stored[i] == StoredRefModel::Uuid(before[i]));
}

/// What is read of a record: the hash of the artifact that it names, none if it
/// names none, and its build dependencies as they are stored, or why they cannot be
/// read.
pub proof fn law_record_parts(record: RecordModel)
    ensures
        artifact_hash_of(record) == (match record.latest_artifact {
            Ok(ArtifactModel::Id(Ok(hash))) => Result::<Option<Seq<u8>>, Error>::Ok(Some(hash)),
            Ok(ArtifactModel::Unnamed) => Result::<Option<Seq<u8>>, Error>::Ok(None),
            Ok(ArtifactModel::Id(Err(e))) => Result::<Option<Seq<u8>>, Error>::Err(Error::Read(e)),
            Err(e) => Result::<Option<Seq<u8>>, Error>::Err(Error::Read(e)),
        }),
        stored_deps_of(record) == (match record.build_deps {
            Ok(refs) => Result::<Seq<StoredRefModel>, Error>::Ok(refs),
            Err(e) => Result::<Seq<StoredRefModel>, Error>::Err(Error::Read(e)),
        }),
{
}

/// Stored references are all names just when each holds sixteen bytes of a name,
/// and then these are the names, each in its place. So are those of references in
/// metadata.
pub proof fn law_names_in_refs(stored: Seq<StoredRefModel>, refs: Seq<RefModel>)
    ensures
        all_uuids(stored) <==> forall|i: int|
            0 <= i < stored.len() ==> (#[trigger] stored[i] matches StoredRefModel::Uuid(uuid)
                && uuid.len() == 16),
        stored_keys(stored).len() == stored.len(),
        forall|i: int|
            0 <= i < stored.len() ==> (stored[i] matches StoredRefModel::Uuid(uuid)
                ==> #[trigger] stored_keys(stored)[i] == uuid),
        ref_keys(refs).len() == refs.len(),
        forall|i: int|
            0 <= i < refs.len() ==> (refs[i] matches RefModel::Uuid(uuid) ==> #[trigger] ref_keys(
                refs,
            )[i] == uuid),
{
    assert forall|i: int| 0 <= i < stored.len() implies is_uuid(#[trigger] stored[i]) == (
    stored[i] matches StoredRefModel::Uuid(uuid) && uuid.len() == 16) by {
    }
}

}
