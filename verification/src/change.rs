//! Changes to assets: the batch in which they are gathered, the events that
//! they lead to, and the log in which the events are kept.
use vstd::bytes::{
    lemma_auto_spec_u64_to_from_le_bytes, spec_u64_from_le_bytes, spec_u64_to_le_bytes,
    u64_from_le_bytes, u64_to_le_bytes,
};
use vstd::prelude::*;
use vstd::slice::slice_to_vec;

use crate::asset::{AssetUuid, Key};
use crate::message::{Field, Message};

verus! {

/// What listeners are told.
#[derive(Clone, Copy, PartialEq, Eq, Debug, Structural)]
pub enum AssetBatchEvent {
    /// A batch of changes was committed.
    Commit,
}

/// The names in a list, in order.
pub open spec fn keys_of(uuids: Seq<AssetUuid>) -> Seq<Key> {
    uuids.map_values(|u: AssetUuid| u@)
}

/// The assets whose content changed since the last time that changes were
/// recorded, in the order in which they changed.
#[derive(Debug)]
pub struct ChangeBatch {
    content_changes: Vec<AssetUuid>,
}

impl View for ChangeBatch {
    type V = Seq<Key>;

    closed spec fn view(&self) -> Seq<Key> {
        keys_of(self.content_changes@)
    }
}

impl ChangeBatch {
    /// A batch without changes.
    pub fn new() -> (batch: ChangeBatch)
        ensures
            batch@ == Seq::<Key>::empty(),
    {
        let batch = ChangeBatch { content_changes: Vec::new() };
        assert(batch@ =~= Seq::<Key>::empty());
        batch
    }

    /// The number of changes in the batch.
    pub fn len(&self) -> (len: usize)
        ensures
            len == self@.len(),
    {
        self.content_changes.len()
    }

    /// Puts the changes of another batch behind those of this one.
    pub fn append(&mut self, other: ChangeBatch)
        ensures
            final(self)@ == old(self)@ + other@,
    {
        let mut changes = other.content_changes;
        self.content_changes.append(&mut changes);
        assert(self@ =~= old(self)@ + other@);
    }

    /// Notes that the content of an asset changed.
    pub(crate) fn push(&mut self, id: AssetUuid)
        ensures
            final(self)@ == old(self)@.push(id@),
    {
        self.content_changes.push(id);
        assert(self@ =~= old(self)@.push(id@));
    }

    /// The assets in the batch.
    pub(crate) fn into_changes(self) -> (changes: Vec<AssetUuid>)
        ensures
            keys_of(changes@) == self@,
    {
        self.content_changes
    }
}

/// An asset has new content, or is built from something that has.
#[derive(Debug)]
pub struct AssetContentUpdateEvent {
    pub id: AssetUuid,
    pub import_hash: Option<Vec<u8>>,
    pub build_dep_hash: Option<Vec<u8>>,
}

/// What happened to an asset.
#[derive(Debug)]
pub enum ChangeEvent {
    ContentUpdate(AssetContentUpdateEvent),
    Remove(AssetUuid),
}

/// What a [`ChangeEvent`] stands for.
pub enum EventModel {
    ContentUpdate { id: Key, import_hash: Option<Seq<u8>>, build_dep_hash: Option<Seq<u8>> },
    Remove { id: Key },
}

/// The model of bytes that may be missing.
pub open spec fn optional_bytes(bytes: Option<Vec<u8>>) -> Option<Seq<u8>> {
    match bytes {
        Some(b) => Some(b@),
        None => None,
    }
}

impl View for ChangeEvent {
    type V = EventModel;

    open spec fn view(&self) -> EventModel {
        match *self {
            ChangeEvent::ContentUpdate(evt) => EventModel::ContentUpdate {
                id: evt.id@,
                import_hash: optional_bytes(evt.import_hash),
                build_dep_hash: optional_bytes(evt.build_dep_hash),
            },
            ChangeEvent::Remove(id) => EventModel::Remove { id: id@ },
        }
    }
}

/// The models of a list of events, in order.
pub open spec fn events_model(events: Seq<ChangeEvent>) -> Seq<EventModel> {
    events.map_values(|e: ChangeEvent| e@)
}

/// An event as it is stored. A build dependency hash that was never written
/// is empty.
#[derive(Debug)]
pub enum LoggedEvent {
    ContentUpdate { id: Vec<u8>, import_hash: Option<Vec<u8>>, build_dep_hash: Vec<u8> },
    Remove { id: Vec<u8> },
}

/// What a [`LoggedEvent`] stands for.
pub enum LoggedModel {
    ContentUpdate { id: Seq<u8>, import_hash: Option<Seq<u8>>, build_dep_hash: Seq<u8> },
    Remove { id: Seq<u8> },
}

impl View for LoggedEvent {
    type V = LoggedModel;

    open spec fn view(&self) -> LoggedModel {
        match *self {
            LoggedEvent::ContentUpdate { id, import_hash, build_dep_hash } =>
                LoggedModel::ContentUpdate {
                    id: id@,
                    import_hash: optional_bytes(import_hash),
                    build_dep_hash: build_dep_hash@,
                },
            LoggedEvent::Remove { id } => LoggedModel::Remove { id: id@ },
        }
    }
}

/// How an event is stored.
pub open spec fn logged(event: EventModel) -> LoggedModel {
    match event {
        EventModel::ContentUpdate { id, import_hash, build_dep_hash } => LoggedModel::ContentUpdate {
            id,
            import_hash,
            build_dep_hash: match build_dep_hash {
                Some(hash) => hash,
                None => Seq::empty(),
            },
        },
        EventModel::Remove { id } => LoggedModel::Remove { id },
    }
}

/// An entry of the change log: an event and its number.
#[derive(Debug)]
pub struct ChangeLogEntry {
    pub num: u64,
    pub event: LoggedEvent,
}

/// What a [`ChangeLogEntry`] stands for.
pub struct EntryModel {
    pub num: u64,
    pub event: LoggedModel,
}

impl View for ChangeLogEntry {
    type V = EntryModel;

    open spec fn view(&self) -> EntryModel {
        EntryModel { num: self.num, event: self.event@ }
    }
}

/// An entry of the change log under its key: its number in eight
/// little-endian bytes.
#[derive(Debug)]
pub struct ChangeRecord {
    pub key: Vec<u8>,
    pub entry: Message<ChangeLogEntry>,
}

/// What a [`ChangeRecord`] stands for.
pub struct ChangeRecordModel {
    pub key: Seq<u8>,
    pub entry: Field<EntryModel>,
}

impl View for ChangeRecord {
    type V = ChangeRecordModel;

    open spec fn view(&self) -> ChangeRecordModel {
        ChangeRecordModel { key: self.key@, entry: self.entry@ }
    }
}

/// The number of bytes in a key of the change log.
pub const SEQUENCE_LEN: usize = 8;

/// Whether `key` can stand behind `log`: it is eight bytes long, and its number
/// is above every number in the log.
pub open spec fn follows(log: Seq<ChangeRecordModel>, key: Seq<u8>) -> bool {
    &&& key.len() == SEQUENCE_LEN
    &&& forall|i: int|
        0 <= i < log.len() ==> spec_u64_from_le_bytes((#[trigger] log[i]).key)
            < spec_u64_from_le_bytes(key)
}

/// Whether the keys of a log are eight bytes long and their numbers rise.
pub open spec fn log_in_order(log: Seq<ChangeRecordModel>) -> bool {
    &&& forall|i: int| 0 <= i < log.len() ==> (#[trigger] log[i]).key.len() == SEQUENCE_LEN
    &&& forall|i: int, j: int|
        0 <= i < j < log.len() ==> spec_u64_from_le_bytes((#[trigger] log[i]).key)
            < spec_u64_from_le_bytes((#[trigger] log[j]).key)
}

/// The number of the last entry of a log, or zero if it has none.
pub open spec fn latest_change(log: Seq<ChangeRecordModel>) -> u64 {
    if log.len() == 0 {
        0
    } else {
        spec_u64_from_le_bytes(log.last().key)
    }
}

/// What stands in the log for `event` under the number `num`.
pub open spec fn change_record(num: u64, event: EventModel) -> ChangeRecordModel {
    ChangeRecordModel {
        key: spec_u64_to_le_bytes(num),
        entry: Ok(EntryModel { num, event: logged(event) }),
    }
}

/// The log with one more event, under the next number.
pub open spec fn log_event(log: Seq<ChangeRecordModel>, event: EventModel) -> Seq<ChangeRecordModel> {
    log.push(change_record((latest_change(log) + 1) as u64, event))
}

/// The log with more events, under the next numbers.
pub open spec fn log_events(
    log: Seq<ChangeRecordModel>,
    events: Seq<EventModel>,
) -> Seq<ChangeRecordModel> {
    log + Seq::new(
        events.len(),
        |i: int| change_record((latest_change(log) + 1 + i) as u64, events[i]),
    )
}

/// The last number of a log after one more event.
pub proof fn lemma_log_event(log: Seq<ChangeRecordModel>, event: EventModel)
    requires
        log_in_order(log),
        latest_change(log) < u64::MAX,
    ensures
        latest_change(log_event(log, event)) == latest_change(log) + 1,
        log_in_order(log_event(log, event)),
        follows(log, spec_u64_to_le_bytes((latest_change(log) + 1) as u64)),
{
    lemma_auto_spec_u64_to_from_le_bytes();
    let next = (latest_change(log) + 1) as u64;
    assert(spec_u64_to_le_bytes(next).len() == 8);
    assert(spec_u64_from_le_bytes(spec_u64_to_le_bytes(next)) == next);
    let after = log_event(log, event);
    assert(after.last().key == spec_u64_to_le_bytes(next));
    assert forall|i: int| 0 <= i < log.len() implies spec_u64_from_le_bytes(
        (#[trigger] log[i]).key,
    ) < next by {
        if i < log.len() - 1 {
            assert(spec_u64_from_le_bytes(log[i].key) < spec_u64_from_le_bytes(
                log[log.len() - 1].key,
            ));
        }
    }
}

/// A log after more events, one at a time, and its last number.
pub proof fn lemma_log_events(log: Seq<ChangeRecordModel>, events: Seq<EventModel>)
    requires
        log_in_order(log),
        latest_change(log) + events.len() <= u64::MAX,
    ensures
        latest_change(log_events(log, events)) == latest_change(log) + events.len(),
        log_in_order(log_events(log, events)),
        events.len() == 0 ==> log_events(log, events) == log,
        events.len() > 0 ==> log_events(log, events) == log_event(
            log_events(log, events.drop_last()),
            events.last(),
        ),
    decreases events.len(),
{
    if events.len() == 0 {
        assert(log_events(log, events) =~= log);
    } else {
        let before = log_events(log, events.drop_last());
        lemma_log_events(log, events.drop_last());
        lemma_log_event(before, events.last());
        assert(log_events(log, events) =~= log_event(before, events.last()));
    }
}

/// Stores bytes that may be missing.
fn copy_optional(bytes: &Option<Vec<u8>>) -> (copy: Option<Vec<u8>>)
    ensures
        optional_bytes(copy) == optional_bytes(*bytes),
{
    match bytes {
        Some(b) => Some(slice_to_vec(b.as_slice())),
        None => None,
    }
}

/// Writes an event into a new entry of the log.
pub fn build_change_record(num: u64, change: &ChangeEvent) -> (record: ChangeRecord)
    ensures
        record@ == change_record(num, change@),
{
    let event = match change {
        ChangeEvent::ContentUpdate(evt) => LoggedEvent::ContentUpdate {
            id: slice_to_vec(evt.id.0.as_slice()),
            import_hash: copy_optional(&evt.import_hash),
            build_dep_hash: match &evt.build_dep_hash {
                Some(hash) => slice_to_vec(hash.as_slice()),
                None => Vec::new(),
            },
        },
        ChangeEvent::Remove(id) => LoggedEvent::Remove { id: slice_to_vec(id.0.as_slice()) },
    };
    ChangeRecord { key: u64_to_le_bytes(num), entry: Message::new(ChangeLogEntry { num, event }) }
}

/// The number that a key of the log stands for.
pub fn parse_sequence_key(key: &[u8]) -> (num: u64)
    requires
        key@.len() == SEQUENCE_LEN,
    ensures
        num == spec_u64_from_le_bytes(key@),
{
    u64_from_le_bytes(key)
}

}
