//! Keeping the tables in step with what importers report: an asset was
//! imported, or it is gone.
use vstd::bytes::{spec_u64_to_le_bytes, u64_to_le_bytes};
use vstd::prelude::*;
use vstd::slice::slice_to_vec;

use crate::asset::{
    refs_model, AssetMetadata, AssetRef, AssetSource, AssetUuid, Key, MetadataModel, RefModel,
    UUID_LEN,
};
use crate::change::{keys_of, ChangeBatch};
use crate::hub::AssetHub;
use crate::index::{
    dependees_of, lemma_link_all_stops, lemma_unlink_all_stops, link, link_all, list_message,
    read_uuid_list, swap_remove_uuid, unlink, unlink_all, write_uuid_list, Indexed,
};
use crate::message::{
    blank_record, ArtifactModel, Error, Field, LatestArtifact, RecordModel, StoredMetadata,
    StoredRef, StoredRefModel,
};
use crate::metadata::{build_asset_metadata_message, parse_db_asset_ref, written_record};
use crate::transaction::{IndexModel, RwTransaction, Store};

verus! {

/// The hash of the artifact that a record names, if it names one, or why it
/// cannot be read.
pub open spec fn artifact_hash_of(record: RecordModel) -> Result<Option<Seq<u8>>, Error> {
    match record.latest_artifact {
        Err(e) => Err(Error::Read(e)),
        Ok(ArtifactModel::Unnamed) => Ok(None),
        Ok(ArtifactModel::Id(Err(e))) => Err(Error::Read(e)),
        Ok(ArtifactModel::Id(Ok(hash))) => Ok(Some(hash)),
    }
}

/// The build dependencies of a record as they are stored, or why they cannot be
/// read.
pub open spec fn stored_deps_of(record: RecordModel) -> Result<Seq<StoredRefModel>, Error> {
    match record.build_deps {
        Err(e) => Err(Error::Read(e)),
        Ok(refs) => Ok(refs),
    }
}

/// Whether each of a list of stored references is a name of sixteen bytes.
pub open spec fn all_uuids(refs: Seq<StoredRefModel>) -> bool {
    forall|i: int| 0 <= i < refs.len() ==> is_uuid(#[trigger] refs[i])
}

/// Whether a stored reference is a name of sixteen bytes.
pub open spec fn is_uuid(reference: StoredRefModel) -> bool {
    reference matches StoredRefModel::Uuid(bytes) && bytes.len() == UUID_LEN
}

/// The names in a list of stored references.
pub open spec fn stored_keys(refs: Seq<StoredRefModel>) -> Seq<Key> {
    refs.map_values(
        |r: StoredRefModel|
            match r {
                StoredRefModel::Uuid(bytes) => bytes,
                _ => Seq::empty(),
            },
    )
}

/// The names in a list of references.
pub open spec fn ref_keys(refs: Seq<RefModel>) -> Seq<Key> {
    refs.map_values(
        |r: RefModel|
            match r {
                RefModel::Uuid(uuid) => uuid,
                RefModel::Path(_) => Seq::empty(),
            },
    )
}

/// The names in `list` that are not in `other`, in order.
pub open spec fn not_in(list: Seq<Key>, other: Seq<Key>) -> Seq<Key> {
    list.filter(|k: Key| !other.contains(k))
}

/// What the tables know of an asset before it is updated.
pub struct Known {
    /// The hash of its last artifact, if one is known.
    pub hash: Option<Seq<u8>>,
    /// Its build dependencies.
    pub deps: Seq<StoredRefModel>,
}

/// What a stored record says of an asset, or why it cannot be read.
pub open spec fn known_of(message: Field<RecordModel>) -> Result<Known, Error> {
    match message {
        Err(e) => Err(Error::Read(e)),
        Ok(record) => match artifact_hash_of(record) {
            Err(e) => Err(e),
            Ok(hash) => match stored_deps_of(record) {
                Err(e) => Err(e),
                Ok(deps) => Ok(Known { hash, deps }),
            },
        },
    }
}

/// What the tables know of an asset: nothing of a new one.
pub open spec fn known(store: Store, id: Key) -> Result<Known, Error> {
    if store.metadata.contains_key(id) {
        known_of(store.metadata[id])
    } else {
        Ok(Known { hash: None, deps: Seq::empty() })
    }
}

/// Whether `deps` can be linked one after the other without meeting a path:
/// before each path stands an asset whose dependees cannot be read.
pub open spec fn links_meet_no_path(index: IndexModel, deps: Seq<RefModel>) -> bool {
    forall|i: int|
        0 <= i < deps.len() && (#[trigger] deps[i]) is Path ==> exists|j: int|
            0 <= j < i && fails_to_link(index, #[trigger] deps[j])
}

/// Whether a reference names an asset whose dependees cannot be read.
pub open spec fn fails_to_link(index: IndexModel, dep: RefModel) -> bool {
    dep matches RefModel::Uuid(uuid) && dependees_of(index, uuid) is Err
}

/// Whether every build dependency that an update comes to look at is a name.
pub open spec fn update_meets_no_path(store: Store, metadata: MetadataModel) -> bool {
    if store.metadata.contains_key(metadata.id) {
        match known(store, metadata.id) {
            Err(_) => true,
            Ok(known) => all_uuids(known.deps) && forall|i: int|
                0 <= i < metadata.build_deps.len() ==> (#[trigger] metadata.build_deps[i]) is Uuid,
        }
    } else {
        links_meet_no_path(store.dependees, metadata.build_deps)
    }
}

/// What the tables and the batch become, and whether the change went through.
#[verifier::ext_equal]
pub struct Outcome {
    pub store: Store,
    pub batch: Seq<Key>,
    pub result: Result<(), Error>,
}

/// The record that is stored for an imported asset.
pub open spec fn imported_record(
    import_hash: u64,
    metadata: MetadataModel,
    source: AssetSource,
) -> RecordModel {
    written_record(blank_record(), metadata, Some(spec_u64_to_le_bytes(import_hash)), source)
}

/// The index after the build dependencies of `id` went from `before` to `after`.
pub open spec fn reindexed(index: IndexModel, id: Key, before: Seq<Key>, after: Seq<Key>) -> Indexed {
    let linked = link_all(index, not_in(after, before), id);
    if linked.result is Err {
        linked
    } else {
        unlink_all(linked.index, not_in(before, after), id)
    }
}

/// What an update comes to.
///
/// The asset is linked to the build dependencies that it newly has, and
/// unlinked from those that it no longer has. Then its record is replaced, and
/// it is noted in the batch unless its artifact is known to be the same. Where
/// something cannot be read, what was done up to there stays done.
pub open spec fn update_outcome(
    store: Store,
    import_hash: u64,
    metadata: MetadataModel,
    source: AssetSource,
    batch: Seq<Key>,
) -> Outcome {
    match known(store, metadata.id) {
        Err(e) => Outcome { store, batch, result: Err(e) },
        Ok(known) => {
            let indexed = reindexed(
                store.dependees,
                metadata.id,
                stored_keys(known.deps),
                ref_keys(metadata.build_deps),
            );
            let store = Store { dependees: indexed.index, ..store };
            if indexed.result is Err {
                Outcome { store, batch, result: indexed.result }
            } else {
                Outcome {
                    store: Store {
                        metadata: store.metadata.insert(
                            metadata.id,
                            Ok(imported_record(import_hash, metadata, source)),
                        ),
                        ..store
                    },
                    batch: if known.hash == Some(spec_u64_to_le_bytes(import_hash)) {
                        batch
                    } else {
                        batch.push(metadata.id)
                    },
                    result: Ok(()),
                }
            }
        },
    }
}

/// The build dependencies of an asset that is to be removed, or why they cannot
/// be read.
pub open spec fn deps_to_remove(store: Store, id: Key) -> Result<Seq<StoredRefModel>, Error> {
    if store.metadata.contains_key(id) {
        match store.metadata[id] {
            Err(e) => Err(Error::Read(e)),
            Ok(record) => stored_deps_of(record),
        }
    } else {
        Ok(Seq::empty())
    }
}

/// What a removal comes to.
///
/// The record of the asset goes, which is noted in the batch if there was one.
/// Then the asset is unlinked from its build dependencies. Where something
/// cannot be read, what was done up to there stays done.
pub open spec fn remove_outcome(store: Store, id: Key, batch: Seq<Key>) -> Outcome {
    match deps_to_remove(store, id) {
        Err(e) => Outcome { store, batch, result: Err(e) },
        Ok(deps) => {
            let indexed = unlink_all(store.dependees, stored_keys(deps), id);
            Outcome {
                store: Store {
                    metadata: store.metadata.remove(id),
                    dependees: indexed.index,
                    ..store
                },
                batch: if store.metadata.contains_key(id) {
                    batch.push(id)
                } else {
                    batch
                },
                result: indexed.result,
            }
        },
    }
}

/// An asset whose dependees cannot be read keeps them as they are.
proof fn lemma_link_all_keeps_unreadable(index: IndexModel, deps: Seq<Key>, id: Key, key: Key)
    requires
        dependees_of(index, key) is Err,
    ensures
        dependees_of(link_all(index, deps, id).index, key) == dependees_of(index, key),
    decreases deps.len(),
{
    if deps.len() > 0 {
        lemma_link_all_keeps_unreadable(index, deps.drop_last(), id, key);
    }
}

/// Linking does not get past an asset whose dependees cannot be read.
pub proof fn lemma_link_all_fails(index: IndexModel, deps: Seq<Key>, id: Key, at: int)
    requires
        0 <= at < deps.len(),
        dependees_of(index, deps[at]) is Err,
    ensures
        link_all(index, deps, id).result is Err,
{
    let upto = deps.take(at + 1);
    assert(upto.drop_last() =~= deps.take(at));
    assert(upto.last() == deps[at]);
    lemma_link_all_keeps_unreadable(index, deps.take(at), id, deps[at]);
    assert(link_all(index, upto, id).result is Err);
    lemma_link_all_stops(index, deps, id, at + 1);
}

/// The hash of the artifact that a message names, if it names one.
pub fn read_artifact_hash(record: &StoredMetadata) -> (res: Result<Option<Vec<u8>>, Error>)
    ensures
        match res {
            Ok(Some(hash)) => artifact_hash_of(record@) == Result::<Option<Seq<u8>>, Error>::Ok(
                Some(hash@),
            ),
            Ok(None) => artifact_hash_of(record@) == Result::<Option<Seq<u8>>, Error>::Ok(None),
            Err(e) => artifact_hash_of(record@) == Result::<Option<Seq<u8>>, Error>::Err(e),
        },
{
    match &record.latest_artifact {
        Err(e) => Err(Error::Read(*e)),
        Ok(LatestArtifact::Unnamed) => Ok(None),
        Ok(LatestArtifact::Id(Err(e))) => Err(Error::Read(*e)),
        Ok(LatestArtifact::Id(Ok(hash))) => Ok(Some(slice_to_vec(hash.as_slice()))),
    }
}

/// The build dependencies of a message.
pub fn read_stored_deps(record: &StoredMetadata) -> (res: Result<&Vec<StoredRef>, Error>)
    ensures
        match res {
            Ok(refs) => stored_deps_of(record@) == Result::<Seq<StoredRefModel>, Error>::Ok(
                refs@.map_values(|r: StoredRef| r@),
            ),
            Err(e) => stored_deps_of(record@) == Result::<Seq<StoredRefModel>, Error>::Err(e),
        },
{
    match &record.build_deps {
        Err(e) => Err(Error::Read(*e)),
        Ok(refs) => Ok(refs),
    }
}

/// Whether each of a list of stored references is a name of sixteen bytes.
pub(crate) fn check_uuids(refs: &Vec<StoredRef>) -> (res: bool)
    ensures
        res == all_uuids(refs@.map_values(|r: StoredRef| r@)),
{
    let ghost model = refs@.map_values(|r: StoredRef| r@);
    let mut i: usize = 0;
    while i < refs.len()
        invariant
            i <= refs@.len(),
            model == refs@.map_values(|r: StoredRef| r@),
            forall|j: int| 0 <= j < i ==> is_uuid(#[trigger] model[j]),
        decreases refs@.len() - i,
    {
        let good = match &refs[i] {
            StoredRef::Uuid(bytes) => bytes.len() == UUID_LEN,
            _ => false,
        };
        assert(good == is_uuid(model[i as int]));
        if !good {
            return false;
        }
        i += 1;
    }
    true
}

/// The name that a stored reference holds.
pub fn expect_stored_uuid(reference: &StoredRef) -> (uuid: AssetUuid)
    requires
        is_uuid(reference@),
    ensures
        reference@ == StoredRefModel::Uuid(uuid@),
{
    *parse_db_asset_ref(reference).expect_uuid()
}

/// The names that stored references hold.
pub fn expect_stored_uuids(refs: &Vec<StoredRef>) -> (uuids: Vec<AssetUuid>)
    requires
        all_uuids(refs@.map_values(|r: StoredRef| r@)),
    ensures
        keys_of(uuids@) == stored_keys(refs@.map_values(|r: StoredRef| r@)),
{
    let ghost model = refs@.map_values(|r: StoredRef| r@);
    let mut uuids: Vec<AssetUuid> = Vec::new();
    let mut i: usize = 0;
    while i < refs.len()
        invariant
            i <= refs@.len(),
            model == refs@.map_values(|r: StoredRef| r@),
            all_uuids(model),
            uuids@.len() == i,
            forall|j: int| 0 <= j < i ==> model[j] == StoredRefModel::Uuid((#[trigger] uuids@[j])@),
        decreases refs@.len() - i,
    {
        assert(is_uuid(model[i as int]));
        uuids.push(expect_stored_uuid(&refs[i]));
        i += 1;
    }
    assert(keys_of(uuids@) =~= stored_keys(model));
    uuids
}

/// Whether a list holds a name.
fn contains_uuid(uuids: &Vec<AssetUuid>, id: &AssetUuid) -> (res: bool)
    ensures
        res == keys_of(uuids@).contains(id@),
{
    let ghost keys = keys_of(uuids@);
    let mut i: usize = 0;
    while i < uuids.len()
        invariant
            i <= uuids@.len(),
            keys == keys_of(uuids@),
            forall|j: int| 0 <= j < i ==> keys[j] != id@,
        decreases uuids@.len() - i,
    {
        if uuids[i].same(id) {
            assert(keys[i as int] == id@);
            return true;
        }
        i += 1;
    }
    false
}

/// Whether a list of references, all of them names, holds a name.
fn contains_ref(refs: &Vec<AssetRef>, id: &AssetUuid) -> (res: bool)
    requires
        forall|i: int| 0 <= i < refs@.len() ==> (#[trigger] refs@[i])@ is Uuid,
    ensures
        res == ref_keys(refs_model(refs@)).contains(id@),
{
    let ghost keys = ref_keys(refs_model(refs@));
    let mut i: usize = 0;
    while i < refs.len()
        invariant
            i <= refs@.len(),
            keys == ref_keys(refs_model(refs@)),
            forall|i: int| 0 <= i < refs@.len() ==> (#[trigger] refs@[i])@ is Uuid,
            forall|j: int| 0 <= j < i ==> keys[j] != id@,
        decreases refs@.len() - i,
    {
        assert(refs@[i as int]@ is Uuid);
        if refs[i].expect_uuid().same(id) {
            assert(keys[i as int] == id@);
            return true;
        }
        i += 1;
    }
    false
}

/// The models of a list of borrowed references.
spec fn borrowed_refs_model(refs: Seq<&AssetRef>) -> Seq<RefModel> {
    refs.map_values(|r: &AssetRef| r@)
}

impl AssetHub {
    /// The dependees of an asset.
    pub(crate) fn read_dependees(&self, txn: &RwTransaction, dep: &AssetUuid) -> (res: Result<
        Vec<AssetUuid>,
        Error,
    >)
        requires
            txn.wf(),
        ensures
            match res {
                Ok(list) => dependees_of(txn@.dependees, dep@) == Result::<Seq<Key>, Error>::Ok(
                    keys_of(list@),
                ),
                Err(e) => dependees_of(txn@.dependees, dep@) == Result::<Seq<Key>, Error>::Err(e),
            },
    {
        match self.get_build_deps_reverse(txn, dep) {
            Some(message) => read_uuid_list(message),
            None => {
                let list: Vec<AssetUuid> = Vec::new();
                assert(keys_of(list@) =~= Seq::<Key>::empty());
                Ok(list)
            },
        }
    }

    /// Stores the dependees of an asset.
    pub fn put_build_deps_reverse(
        &self,
        txn: &mut RwTransaction,
        id: &AssetUuid,
        dependees: Vec<AssetUuid>,
    )
        requires
            old(txn).wf(),
        ensures
            final(txn).wf(),
            final(txn)@ == (Store {
                dependees: old(txn)@.dependees.insert(id@, list_message(keys_of(dependees@))),
                ..old(txn)@
            }),
    {
        txn.put_dependees(*id, write_uuid_list(&dependees));
    }

    /// Adds `id` behind the dependees of `dep`.
    fn link(&self, txn: &mut RwTransaction, dep: &AssetUuid, id: &AssetUuid) -> (res: Result<
        (),
        Error,
    >)
        requires
            old(txn).wf(),
        ensures
            final(txn).wf(),
            final(txn)@ == (Store {
                dependees: link(old(txn)@.dependees, dep@, id@).index,
                ..old(txn)@
            }),
            res == link(old(txn)@.dependees, dep@, id@).result,
    {
        let mut list = match self.read_dependees(txn, dep) {
            Ok(list) => list,
            Err(e) => {
                return Err(e);
            },
        };
        let ghost before = list@;
        list.push(*id);
        assert(keys_of(list@) =~= keys_of(before).push(id@));
        self.put_build_deps_reverse(txn, dep, list);
        Ok(())
    }

    /// Takes `id` out of the dependees of `dep`.
    fn unlink(&self, txn: &mut RwTransaction, dep: &AssetUuid, id: &AssetUuid) -> (res: Result<
        (),
        Error,
    >)
        requires
            old(txn).wf(),
        ensures
            final(txn).wf(),
            final(txn)@ == (Store {
                dependees: unlink(old(txn)@.dependees, dep@, id@).index,
                ..old(txn)@
            }),
            res == unlink(old(txn)@.dependees, dep@, id@).result,
    {
        let mut list = match self.read_dependees(txn, dep) {
            Ok(list) => list,
            Err(e) => {
                return Err(e);
            },
        };
        swap_remove_uuid(&mut list, id);
        assert(keys_of(list@).len() == list@.len());
        if list.is_empty() {
            txn.delete_dependees(dep);
        } else {
            self.put_build_deps_reverse(txn, dep, list);
        }
        Ok(())
    }

    /// Adds `id` behind the dependees of each of `deps`.
    fn link_all(&self, txn: &mut RwTransaction, deps: &Vec<&AssetRef>, id: &AssetUuid) -> (res:
        Result<(), Error>)
        requires
            old(txn).wf(),
            links_meet_no_path(old(txn)@.dependees, borrowed_refs_model(deps@)),
        ensures
            final(txn).wf(),
            ({
                let indexed = link_all(
                    old(txn)@.dependees,
                    ref_keys(borrowed_refs_model(deps@)),
                    id@,
                );
                &&& final(txn)@ == (Store { dependees: indexed.index, ..old(txn)@ })
                &&& res == indexed.result
            }),
    {
        let ghost index = txn@.dependees;
        let ghost model = borrowed_refs_model(deps@);
        let ghost keys = ref_keys(model);
        let mut i: usize = 0;
        assert(keys.take(0) =~= Seq::<Key>::empty());
        while i < deps.len()
            invariant
                i <= deps@.len(),
                txn.wf(),
                index == old(txn)@.dependees,
                model == borrowed_refs_model(deps@),
                keys == ref_keys(model),
                links_meet_no_path(index, model),
                txn@ == (Store {
                    dependees: link_all(index, keys.take(i as int), id@).index,
                    ..old(txn)@
                }),
                link_all(index, keys.take(i as int), id@).result is Ok,
            decreases deps@.len() - i,
        {
            proof {
                if model[i as int] is Path {
                    let j = choose|j: int| 0 <= j < i && fails_to_link(index, #[trigger] model[j]);
                    assert(keys.take(i as int)[j] == keys[j]);
                    lemma_link_all_fails(index, keys.take(i as int), id@, j);
                }
                assert(keys.take(i + 1).drop_last() =~= keys.take(i as int));
            }
            let dep = deps[i].expect_uuid();
            assert(keys.take(i + 1).last() == dep@);
            match self.link(txn, dep, id) {
                Ok(()) => {},
                Err(e) => {
                    proof {
                        lemma_link_all_stops(index, keys, id@, i + 1);
                    }
                    return Err(e);
                },
            }
            i += 1;
        }
        assert(keys.take(i as int) =~= keys);
        Ok(())
    }

    /// Takes `id` out of the dependees of each of `deps`.
    fn unlink_all(&self, txn: &mut RwTransaction, deps: &Vec<AssetUuid>, id: &AssetUuid) -> (res:
        Result<(), Error>)
        requires
            old(txn).wf(),
        ensures
            final(txn).wf(),
            ({
                let indexed = unlink_all(old(txn)@.dependees, keys_of(deps@), id@);
                &&& final(txn)@ == (Store { dependees: indexed.index, ..old(txn)@ })
                &&& res == indexed.result
            }),
    {
        let ghost index = txn@.dependees;
        let ghost keys = keys_of(deps@);
        let mut i: usize = 0;
        assert(keys.take(0) =~= Seq::<Key>::empty());
        while i < deps.len()
            invariant
                i <= deps@.len(),
                txn.wf(),
                index == old(txn)@.dependees,
                keys == keys_of(deps@),
                txn@ == (Store {
                    dependees: unlink_all(index, keys.take(i as int), id@).index,
                    ..old(txn)@
                }),
                unlink_all(index, keys.take(i as int), id@).result is Ok,
            decreases deps@.len() - i,
        {
            assert(keys.take(i + 1).drop_last() =~= keys.take(i as int));
            assert(keys.take(i + 1).last() == deps@[i as int]@);
            match self.unlink(txn, &deps[i], id) {
                Ok(()) => {},
                Err(e) => {
                    proof {
                        lemma_unlink_all_stops(index, keys, id@, i + 1);
                    }
                    return Err(e);
                },
            }
            i += 1;
        }
        assert(keys.take(i as int) =~= keys);
        Ok(())
    }

    /// The build dependencies that an asset newly has.
    fn added_deps<'a>(&self, before: &Vec<AssetUuid>, after: &'a Vec<AssetRef>) -> (added: Vec<
        &'a AssetRef,
    >)
        requires
            forall|i: int| 0 <= i < after@.len() ==> (#[trigger] after@[i])@ is Uuid,
        ensures
            ref_keys(borrowed_refs_model(added@)) == not_in(
                ref_keys(refs_model(after@)),
                keys_of(before@),
            ),
            forall|i: int| 0 <= i < added@.len() ==> (#[trigger] added@[i])@ is Uuid,
    {
        let ghost keys = ref_keys(refs_model(after@));
        let ghost other = keys_of(before@);
        let ghost is_new = |k: Key| !other.contains(k);
        let mut added: Vec<&'a AssetRef> = Vec::new();
        let mut i: usize = 0;
        proof {
            reveal(Seq::filter);
            assert(ref_keys(borrowed_refs_model(added@)) =~= keys.take(0).filter(is_new));
        }
        while i < after.len()
            invariant
                i <= after@.len(),
                forall|i: int| 0 <= i < after@.len() ==> (#[trigger] after@[i])@ is Uuid,
                keys == ref_keys(refs_model(after@)),
                other == keys_of(before@),
                is_new == (|k: Key| !other.contains(k)),
                ref_keys(borrowed_refs_model(added@)) == keys.take(i as int).filter(is_new),
                forall|i: int| 0 <= i < added@.len() ==> (#[trigger] added@[i])@ is Uuid,
            decreases after@.len() - i,
        {
            let ghost so_far = added@;
            assert(after@[i as int]@ is Uuid);
            let dep = after[i].expect_uuid();
            proof {
                reveal(Seq::filter);
                assert(keys.take(i + 1).drop_last() =~= keys.take(i as int));
                assert(keys.take(i + 1).last() == dep@);
            }
            if !contains_uuid(before, dep) {
                added.push(&after[i]);
                assert(ref_keys(borrowed_refs_model(added@)) =~= ref_keys(
                    borrowed_refs_model(so_far),
                ).push(dep@));
            }
            i += 1;
        }
        assert(keys.take(i as int) =~= keys);
        added
    }

    /// The build dependencies that an asset no longer has.
    fn removed_deps(&self, before: &Vec<AssetUuid>, after: &Vec<AssetRef>) -> (removed: Vec<
        AssetUuid,
    >)
        requires
            forall|i: int| 0 <= i < after@.len() ==> (#[trigger] after@[i])@ is Uuid,
        ensures
            keys_of(removed@) == not_in(keys_of(before@), ref_keys(refs_model(after@))),
    {
        let ghost keys = keys_of(before@);
        let ghost other = ref_keys(refs_model(after@));
        let ghost is_gone = |k: Key| !other.contains(k);
        let mut removed: Vec<AssetUuid> = Vec::new();
        let mut i: usize = 0;
        proof {
            reveal(Seq::filter);
            assert(keys_of(removed@) =~= keys.take(0).filter(is_gone));
        }
        while i < before.len()
            invariant
                i <= before@.len(),
                forall|i: int| 0 <= i < after@.len() ==> (#[trigger] after@[i])@ is Uuid,
                keys == keys_of(before@),
                other == ref_keys(refs_model(after@)),
                is_gone == (|k: Key| !other.contains(k)),
                keys_of(removed@) == keys.take(i as int).filter(is_gone),
            decreases before@.len() - i,
        {
            let ghost so_far = removed@;
            proof {
                reveal(Seq::filter);
                assert(keys.take(i + 1).drop_last() =~= keys.take(i as int));
                assert(keys.take(i + 1).last() == before@[i as int]@);
            }
            if !contains_ref(after, &before[i]) {
                removed.push(before[i]);
                assert(keys_of(removed@) =~= keys_of(so_far).push(before@[i as int]@));
            }
            i += 1;
        }
        assert(keys.take(i as int) =~= keys);
        removed
    }

    /// Whether every build dependency that an update would come to look at is a
    /// name, as [`AssetHub::update_asset`] requires.
    pub fn can_update(&self, txn: &RwTransaction, metadata: &AssetMetadata) -> (res: bool)
        requires
            txn.wf(),
        ensures
            res == update_meets_no_path(txn@, metadata@),
    {
        match txn.metadata(&metadata.id) {
            Some(existing) => {
                let existing = match existing.get() {
                    Ok(existing) => existing,
                    Err(_) => {
                        return true;
                    },
                };
                if read_artifact_hash(existing).is_err() {
                    return true;
                }
                match read_stored_deps(existing) {
                    Ok(stored) => check_uuids(stored) && self.all_named(&metadata.build_deps),
                    Err(_) => true,
                }
            },
            None => self.can_link(txn, &metadata.build_deps),
        }
    }

    /// Whether each of a list of references is a name.
    fn all_named(&self, deps: &Vec<AssetRef>) -> (res: bool)
        ensures
            res == forall|i: int|
                0 <= i < refs_model(deps@).len() ==> (#[trigger] refs_model(deps@)[i]) is Uuid,
    {
        let ghost model = refs_model(deps@);
        let mut i: usize = 0;
        while i < deps.len()
            invariant
                i <= deps@.len(),
                model == refs_model(deps@),
                forall|j: int| 0 <= j < i ==> (#[trigger] model[j]) is Uuid,
            decreases deps@.len() - i,
        {
            if let AssetRef::Path(_) = &deps[i] {
                assert(!(model[i as int] is Uuid));
                return false;
            }
            i += 1;
        }
        true
    }

    /// Whether a list of references can be linked one after the other without
    /// meeting a path.
    fn can_link(&self, txn: &RwTransaction, deps: &Vec<AssetRef>) -> (res: bool)
        requires
            txn.wf(),
        ensures
            res == links_meet_no_path(txn@.dependees, refs_model(deps@)),
    {
        let ghost index = txn@.dependees;
        let ghost model = refs_model(deps@);
        let mut i: usize = 0;
        while i < deps.len()
            invariant
                txn.wf(),
                i <= deps@.len(),
                index == txn@.dependees,
                model == refs_model(deps@),
                forall|j: int|
                    0 <= j < i ==> (#[trigger] model[j]) is Uuid && !fails_to_link(index, model[j]),
            decreases deps@.len() - i,
        {
            match &deps[i] {
                AssetRef::Path(_) => {
                    assert(model[i as int] is Path);
                    return false;
                },
                AssetRef::Uuid(uuid) => {
                    if self.read_dependees(txn, uuid).is_err() {
                        assert(fails_to_link(index, model[i as int]));
                        return true;
                    }
                },
            }
            i += 1;
        }
        true
    }

    /// Whether every build dependency that a removal would come to look at is a
    /// name, as [`AssetHub::remove_asset`] requires.
    pub fn can_remove(&self, txn: &RwTransaction, id: &AssetUuid) -> (res: bool)
        requires
            txn.wf(),
        ensures
            res == (deps_to_remove(txn@, id@) matches Ok(deps) ==> all_uuids(deps)),
    {
        match txn.metadata(id) {
            Some(existing) => match existing.get() {
                Ok(existing) => match read_stored_deps(existing) {
                    Ok(stored) => check_uuids(stored),
                    Err(_) => true,
                },
                Err(_) => true,
            },
            None => true,
        }
    }

    /// Records that an asset was imported: `import_hash` is the hash of the
    /// artifact that came of it.
    pub fn update_asset(
        &self,
        txn: &mut RwTransaction,
        import_hash: u64,
        metadata: &AssetMetadata,
        source: AssetSource,
        change_batch: &mut ChangeBatch,
    ) -> (res: Result<(), Error>)
        requires
            old(txn).wf(),
            update_meets_no_path(old(txn)@, metadata@),
        ensures
            final(txn).wf(),
            ({
                let outcome = update_outcome(
                    old(txn)@,
                    import_hash,
                    metadata@,
                    source,
                    old(change_batch)@,
                );
                &&& final(txn)@ == outcome.store
                &&& final(change_batch)@ == outcome.batch
                &&& res == outcome.result
            }),
    {
        let hash_bytes = u64_to_le_bytes(import_hash);
        let new_metadata = build_asset_metadata_message(
            metadata,
            Some(hash_bytes.as_slice()),
            source,
        );
        let mut maybe_hash: Option<Vec<u8>> = None;
        let mut deps_to_add: Vec<&AssetRef> = Vec::new();
        let mut deps_to_delete: Vec<AssetUuid> = Vec::new();
        let ghost new_keys = ref_keys(metadata@.build_deps);
        match txn.metadata(&metadata.id) {
            Some(existing) => {
                let existing = match existing.get() {
                    Ok(existing) => existing,
                    Err(e) => {
                        return Err(Error::Read(e));
                    },
                };
                maybe_hash = match read_artifact_hash(existing) {
                    Ok(hash) => hash,
                    Err(e) => {
                        return Err(e);
                    },
                };
                let stored = match read_stored_deps(existing) {
                    Ok(stored) => stored,
                    Err(e) => {
                        return Err(e);
                    },
                };
                let existing_deps = expect_stored_uuids(stored);
                proof {
                    assert forall|i: int| 0 <= i < metadata.build_deps@.len() implies (
                    #[trigger] metadata.build_deps@[i])@ is Uuid by {
                        assert(metadata@.build_deps[i] is Uuid);
                    }
                }
                deps_to_delete = self.removed_deps(&existing_deps, &metadata.build_deps);
                deps_to_add = self.added_deps(&existing_deps, &metadata.build_deps);
                assert(links_meet_no_path(txn@.dependees, borrowed_refs_model(deps_to_add@)));
            },
            None => {
                let mut i: usize = 0;
                while i < metadata.build_deps.len()
                    invariant
                        i <= metadata.build_deps@.len(),
                        deps_to_add@.len() == i,
                        forall|j: int|
                            0 <= j < i ==> *(#[trigger] deps_to_add@[j])
                                == metadata.build_deps@[j],
                    decreases metadata.build_deps@.len() - i,
                {
                    deps_to_add.push(&metadata.build_deps[i]);
                    i += 1;
                }
                proof {
                    reveal(Seq::filter);
                    let none = Seq::<Key>::empty();
                    assert(stored_keys(Seq::empty()) =~= none);
                    assert(borrowed_refs_model(deps_to_add@) =~= metadata@.build_deps);
                    lemma_not_in_empty(new_keys);
                    assert(keys_of(deps_to_delete@) =~= not_in(none, new_keys));
                }
            },
        }
        let artifact_changed = match &maybe_hash {
            Some(hash) => !same_bytes(&hash_bytes, hash),
            None => true,
        };
        match self.link_all(txn, &deps_to_add, &metadata.id) {
            Ok(()) => {},
            Err(e) => {
                return Err(e);
            },
        }
        match self.unlink_all(txn, &deps_to_delete, &metadata.id) {
            Ok(()) => {},
            Err(e) => {
                return Err(e);
            },
        }
        txn.put_metadata(metadata.id, new_metadata);
        if artifact_changed {
            change_batch.push(metadata.id);
        }
        Ok(())
    }

    /// Records that an asset is gone.
    pub fn remove_asset(
        &self,
        txn: &mut RwTransaction,
        id: &AssetUuid,
        change_batch: &mut ChangeBatch,
    ) -> (res: Result<(), Error>)
        requires
            old(txn).wf(),
            deps_to_remove(old(txn)@, id@) matches Ok(deps) ==> all_uuids(deps),
        ensures
            final(txn).wf(),
            ({
                let outcome = remove_outcome(old(txn)@, id@, old(change_batch)@);
                &&& final(txn)@ == outcome.store
                &&& final(change_batch)@ == outcome.batch
                &&& res == outcome.result
            }),
    {
        let mut deps_to_delete: Vec<AssetUuid> = Vec::new();
        assert(keys_of(deps_to_delete@) =~= stored_keys(Seq::empty()));
        if let Some(metadata) = self.get_metadata(txn, id) {
            let metadata = match metadata.get() {
                Ok(metadata) => metadata,
                Err(e) => {
                    return Err(Error::Read(e));
                },
            };
            let stored = match read_stored_deps(metadata) {
                Ok(stored) => stored,
                Err(e) => {
                    return Err(e);
                },
            };
            deps_to_delete = expect_stored_uuids(stored);
        }
        if txn.delete_metadata(id) {
            change_batch.push(*id);
        }
        self.unlink_all(txn, &deps_to_delete, id)
    }
}

/// Every name is missing from an empty list.
pub proof fn lemma_not_in_empty(keys: Seq<Key>)
    ensures
        not_in(keys, Seq::empty()) == keys,
    decreases keys.len(),
{
    reveal(Seq::filter);
    if keys.len() > 0 {
        lemma_not_in_empty(keys.drop_last());
        assert(keys =~= keys.drop_last().push(keys.last()));
    }
}

/// Whether two byte strings are the same.
fn same_bytes(a: &Vec<u8>, b: &Vec<u8>) -> (res: bool)
    ensures
        res == (a@ == b@),
{
    if a.len() != b.len() {
        return false;
    }
    let mut i: usize = 0;
    while i < a.len()
        invariant
            i <= a@.len(),
            a@.len() == b@.len(),
            forall|j: int| 0 <= j < i ==> a@[j] == b@[j],
        decreases a@.len() - i,
    {
        if a[i] != b[i] {
            return false;
        }
        i += 1;
    }
    assert(a@ =~= b@);
    true
}

}
