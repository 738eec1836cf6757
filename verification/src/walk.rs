//! The walk over everything that an asset is built from, and the digest that it
//! leads to.
use std::collections::hash_map::DefaultHasher;
use std::collections::VecDeque;
use std::hash::{Hash, Hasher};

use vstd::bytes::{spec_u64_to_le_bytes, u64_to_le_bytes};
use vstd::endian::{endianness, Endian};
use vstd::prelude::*;
use vstd::std_specs::hash::DefaultHasherAdditionalSpecFns;

use crate::asset::{AssetUuid, Key};
use crate::change::{
    keys_of, optional_bytes, AssetContentUpdateEvent, ChangeEvent, EventModel,
};
use crate::hub::AssetHub;
use crate::message::{Error, Field, RecordModel, StoredMetadata, StoredRefModel};
use crate::transaction::RwTransaction;
use crate::update::{
    all_uuids, artifact_hash_of, check_uuids, expect_stored_uuids, read_artifact_hash,
    read_stored_deps, stored_deps_of, stored_keys,
};

verus! {

/// How far a computation with a limit on its steps came.
#[derive(Debug)]
pub enum Progress<T> {
    /// It was not done when its steps were used up.
    Pending,
    /// It met something that it cannot go on with: a build dependency that is
    /// not a name of sixteen bytes, or no number left for the change log.
    Aborted,
    /// Something could not be read.
    Failed(Error),
    /// It is done.
    Done(T),
}

/// The hash that a walk over the build dependencies of `asset` ends with, if it
/// meets any.
///
/// The queue is taken from the front, one asset a step. The build dependencies
/// of each asset go behind it, and the hash of its artifact, if it has one,
/// takes the place of the hash that was met before. Only `asset` itself is ever
/// passed over: once some hash was met, it is not visited again.
pub open spec fn walk(
    metadata: Map<Key, Field<RecordModel>>,
    asset: Key,
    queue: Seq<Key>,
    met: Option<Seq<u8>>,
    steps: nat,
) -> Progress<Option<Seq<u8>>>
    decreases steps,
{
    if queue.len() == 0 {
        Progress::Done(met)
    } else if steps == 0 {
        Progress::Pending
    } else {
        let id = queue.first();
        let rest = queue.drop_first();
        let left = (steps - 1) as nat;
        if (id == asset && met is Some) || !metadata.contains_key(id) {
            walk(metadata, asset, rest, met, left)
        } else {
            match visited(metadata[id]) {
                Err(e) => Progress::Failed(e),
                Ok((hash, deps)) => if all_uuids(deps) {
                    walk(
                        metadata,
                        asset,
                        rest + stored_keys(deps),
                        if hash is Some {
                            hash
                        } else {
                            met
                        },
                        left,
                    )
                } else {
                    Progress::Aborted
                },
            }
        }
    }
}

/// What a walk reads of an asset: the hash of its artifact, if it has one, and
/// its build dependencies.
pub open spec fn visited(message: Field<RecordModel>) -> Result<
    (Option<Seq<u8>>, Seq<StoredRefModel>),
    Error,
> {
    match message {
        Err(e) => Err(Error::Read(e)),
        Ok(record) => match artifact_hash_of(record) {
            Err(e) => Err(e),
            Ok(hash) => match stored_deps_of(record) {
                Err(e) => Err(e),
                Ok(deps) => Ok((hash, deps)),
            },
        },
    }
}

/// What hashing a byte vector writes to a hasher, where a `usize` has so many
/// bits and numbers are stored in this byte order.
pub uninterp spec fn hash_writes(bytes: Seq<u8>, usize_bits: u32, little_endian: bool) -> Seq<Seq<u8>>;

/// Whether the target stores numbers with their lowest byte first.
pub open spec fn is_little_endian() -> bool {
    endianness() == Endian::Little
}

/// `<Vec<u8> as Hash>::hash`: it adds to what the hasher was given before, and
/// what it adds is a function of the bytes, of the size of a `usize` and of the
/// byte order: the standard library says that what is fed to a hasher differs with
/// these from target to target. Which writes those are, it leaves open.
#[verifier::external_body]
fn hash_bytes(bytes: &Vec<u8>, state: &mut DefaultHasher)
    ensures
        final(state)@ == old(state)@ + hash_writes(bytes@, usize::BITS, is_little_endian()),
{
    bytes.hash(state);
}

/// The digest of the hash that a walk ended with, in eight little-endian bytes.
pub open spec fn digest(met: Option<Seq<u8>>) -> Seq<u8> {
    spec_u64_to_le_bytes(
        DefaultHasher::spec_finish(
            match met {
                Some(hash) => hash_writes(hash, usize::BITS, is_little_endian()),
                None => Seq::empty(),
            },
        ),
    )
}

/// Computes the digest of the hash that a walk ended with.
pub fn compute_digest(met: &Option<Vec<u8>>) -> (bytes: Vec<u8>)
    ensures
        bytes@ == digest(optional_bytes(*met)),
{
    let mut hasher = DefaultHasher::new();
    if let Some(hash) = met {
        hash_bytes(hash, &mut hasher);
        assert(hasher@ =~= hash_writes(hash@, usize::BITS, is_little_endian()));
    }
    u64_to_le_bytes(hasher.finish())
}

/// What is found out about an asset that a batch affects.
pub enum Finding {
    /// It has no record.
    Gone,
    /// It has a record: the hash of its artifact, which is empty if it has none,
    /// and the hash that the walk over its build dependencies ended with.
    Changed { import_hash: Seq<u8>, met: Option<Seq<u8>> },
}

/// What is found out about an asset in a walk of at most `steps` steps.
pub open spec fn finding(
    metadata: Map<Key, Field<RecordModel>>,
    asset: Key,
    steps: nat,
) -> Progress<Finding> {
    if !metadata.contains_key(asset) {
        Progress::Done(Finding::Gone)
    } else {
        match metadata[asset] {
            Err(e) => Progress::Failed(Error::Read(e)),
            Ok(record) => match walk(metadata, asset, seq![asset], None, steps) {
                Progress::Pending => Progress::Pending,
                Progress::Aborted => Progress::Aborted,
                Progress::Failed(e) => Progress::Failed(e),
                Progress::Done(met) => match artifact_hash_of(record) {
                    Err(e) => Progress::Failed(e),
                    Ok(hash) => Progress::Done(
                        Finding::Changed {
                            import_hash: match hash {
                                Some(hash) => hash,
                                None => Seq::empty(),
                            },
                            met,
                        },
                    ),
                },
            },
        }
    }
}

/// The event that a finding about an asset leads to: an asset without a record
/// is gone, and any other has new content.
pub open spec fn event_of(asset: Key, found: Finding) -> EventModel {
    match found {
        Finding::Gone => EventModel::Remove { id: asset },
        Finding::Changed { import_hash, met } => EventModel::ContentUpdate {
            id: asset,
            import_hash: Some(import_hash),
            build_dep_hash: Some(digest(met)),
        },
    }
}

/// What happened to an asset that a batch affects.
pub open spec fn asset_event(
    metadata: Map<Key, Field<RecordModel>>,
    asset: Key,
    steps: nat,
) -> Progress<EventModel> {
    match finding(metadata, asset, steps) {
        Progress::Pending => Progress::Pending,
        Progress::Aborted => Progress::Aborted,
        Progress::Failed(e) => Progress::Failed(e),
        Progress::Done(found) => Progress::Done(event_of(asset, found)),
    }
}

/// Says that an asset has new content: its import hash is the hash of the
/// artifact that its record names, and empty if it names none.
pub fn content_update(asset: &AssetUuid, record: &StoredMetadata, build_dep_hash: Vec<u8>) -> (res:
    Result<ChangeEvent, Error>)
    ensures
        match artifact_hash_of(record@) {
            Err(e) => res == Result::<ChangeEvent, Error>::Err(e),
            Ok(hash) => res matches Ok(event) && event@ == (EventModel::ContentUpdate {
                id: asset@,
                import_hash: Some(
                    match hash {
                        Some(hash) => hash,
                        None => Seq::empty(),
                    },
                ),
                build_dep_hash: Some(build_dep_hash@),
            }),
        },
{
    let import_hash: Vec<u8> = match read_artifact_hash(record) {
        Err(e) => {
            return Err(e);
        },
        Ok(Some(hash)) => hash,
        Ok(None) => Vec::new(),
    };
    Ok(
        ChangeEvent::ContentUpdate(
            AssetContentUpdateEvent {
                id: *asset,
                import_hash: Some(import_hash),
                build_dep_hash: Some(build_dep_hash),
            },
        ),
    )
}

/// The model of what a walk ends with.
pub open spec fn met_model(res: Progress<Option<Vec<u8>>>) -> Progress<Option<Seq<u8>>> {
    match res {
        Progress::Pending => Progress::Pending,
        Progress::Aborted => Progress::Aborted,
        Progress::Failed(e) => Progress::Failed(e),
        Progress::Done(met) => Progress::Done(optional_bytes(met)),
    }
}

/// The model of the event that an asset leads to.
pub open spec fn event_model(res: Progress<ChangeEvent>) -> Progress<EventModel> {
    match res {
        Progress::Pending => Progress::Pending,
        Progress::Aborted => Progress::Aborted,
        Progress::Failed(e) => Progress::Failed(e),
        Progress::Done(event) => Progress::Done(event@),
    }
}

impl AssetHub {
    /// Walks over everything that an asset is built from, in at most `steps`
    /// steps.
    pub fn walk_build_deps(&self, txn: &RwTransaction, asset: &AssetUuid, steps: u64) -> (res:
        Progress<Option<Vec<u8>>>)
        requires
            txn.wf(),
        ensures
            met_model(res) == walk(txn@.metadata, asset@, seq![asset@], None, steps as nat),
    {
        let ghost metadata = txn@.metadata;
        let ghost goal = walk(metadata, asset@, seq![asset@], None, steps as nat);
        let mut met: Option<Vec<u8>> = None;
        let mut to_check: VecDeque<AssetUuid> = VecDeque::new();
        to_check.push_back(*asset);
        assert(keys_of(to_check@) =~= seq![asset@]);
        let mut left: u64 = steps;
        while to_check.len() > 0
            invariant
                txn.wf(),
                metadata == txn@.metadata,
                goal == walk(metadata, asset@, seq![asset@], None, steps as nat),
                goal == walk(
                    metadata,
                    asset@,
                    keys_of(to_check@),
                    optional_bytes(met),
                    left as nat,
                ),
            decreases left,
        {
            let ghost queue = keys_of(to_check@);
            if left == 0 {
                return Progress::Pending;
            }
            left -= 1;
            let id = to_check.pop_front().unwrap();
            assert(queue.first() == id@);
            assert(keys_of(to_check@) =~= queue.drop_first());
            if id.same(asset) && met.is_some() {
                continue ;
            }
            if let Some(message) = self.get_metadata(txn, &id) {
                let record = match message.get() {
                    Ok(record) => record,
                    Err(e) => {
                        return Progress::Failed(Error::Read(e));
                    },
                };
                let hash = match read_artifact_hash(record) {
                    Ok(hash) => hash,
                    Err(e) => {
                        return Progress::Failed(e);
                    },
                };
                let stored = match read_stored_deps(record) {
                    Ok(stored) => stored,
                    Err(e) => {
                        return Progress::Failed(e);
                    },
                };
                if !check_uuids(stored) {
                    return Progress::Aborted;
                }
                let deps = expect_stored_uuids(stored);
                let ghost rest = to_check@;
                let mut j: usize = 0;
                while j < deps.len()
                    invariant
                        j <= deps@.len(),
                        to_check@ == rest + deps@.take(j as int),
                    decreases deps@.len() - j,
                {
                    to_check.push_back(deps[j]);
                    j += 1;
                    assert(to_check@ =~= rest + deps@.take(j as int));
                }
                assert(deps@.take(j as int) =~= deps@);
                assert(keys_of(to_check@) =~= keys_of(rest) + keys_of(deps@));
                if hash.is_some() {
                    met = hash;
                }
            }
        }
        Progress::Done(met)
    }

    /// Says what happened to an asset that a batch affects.
    pub fn asset_event(&self, txn: &RwTransaction, asset: &AssetUuid, steps: u64) -> (res: Progress<
        ChangeEvent,
    >)
        requires
            txn.wf(),
        ensures
            event_model(res) == asset_event(txn@.metadata, asset@, steps as nat),
    {
        let message = match self.get_metadata(txn, asset) {
            Some(message) => message,
            None => {
                return Progress::Done(ChangeEvent::Remove(*asset));
            },
        };
        let record = match message.get() {
            Ok(record) => record,
            Err(e) => {
                return Progress::Failed(Error::Read(e));
            },
        };
        let met = match self.walk_build_deps(txn, asset, steps) {
            Progress::Pending => {
                return Progress::Pending;
            },
            Progress::Aborted => {
                return Progress::Aborted;
            },
            Progress::Failed(e) => {
                return Progress::Failed(e);
            },
            Progress::Done(met) => met,
        };
        match content_update(asset, record, compute_digest(&met)) {
            Ok(event) => Progress::Done(event),
            Err(e) => Progress::Failed(e),
        }
    }
}

}
