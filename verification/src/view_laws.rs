//! What the models say of the values that they stand for: nothing is left out,
//! and nothing changes its place.
use vstd::prelude::*;

use crate::asset::{
    refs_model, tags_model, AssetMetadata, AssetRef, AssetTypeId, AssetUuid, RefModel, SearchTag,
};
use crate::change::{
    events_model, keys_of, optional_bytes, ChangeEvent, ChangeRecord, EventModel, LoggedEvent,
    LoggedModel,
};
use crate::message::{
    ArtifactModel, Field, LatestArtifact, Message, ReadError, StoredMetadata, StoredRef,
    StoredRefModel, StoredTag, UuidList,
};
use crate::metadata::stored_list_model;
use crate::record::progress_model;
use crate::walk::{event_model, met_model, Progress};

verus! {

/// A name stands for all of its sixteen bytes.
pub proof fn law_name_view(name: AssetUuid, asset_type: AssetTypeId)
    ensures
        name@.len() == 16,
        forall|i: int| 0 <= i < 16 ==> #[trigger] name@[i] == name.0@[i],
        asset_type@.len() == 16,
        forall|i: int| 0 <= i < 16 ==> #[trigger] asset_type@[i] == asset_type.0@[i],
{
}

/// A list of names stands for each name in its place.
pub proof fn law_names_view(names: Seq<AssetUuid>)
    ensures
        keys_of(names).len() == names.len(),
        forall|i: int| 0 <= i < names.len() ==> #[trigger] keys_of(names)[i] == names[i].0@,
{
}

/// A list of references stands for each in its place, with its name or its path.
pub proof fn law_refs_view(refs: Seq<AssetRef>)
    ensures
        refs_model(refs).len() == refs.len(),
        forall|i: int|
            0 <= i < refs.len() ==> #[trigger] refs_model(refs)[i] == (match refs[i] {
                AssetRef::Uuid(uuid) => RefModel::Uuid(uuid.0@),
                AssetRef::Path(path) => RefModel::Path(path@),
            }),
{
}

/// A list of tags stands for each in its place, with its key and its value.
pub proof fn law_tags_view(tags: Seq<SearchTag>)
    ensures
        tags_model(tags).len() == tags.len(),
        forall|i: int|
            0 <= i < tags.len() ==> {
                let tag = #[trigger] tags_model(tags)[i];
                &&& tag.0 == tags[i].0@
                &&& tag.1 is Some <==> tags[i].1 is Some
                &&& tags[i].1 matches Some(value) ==> tag.1 == Some(value@)
            },
{
}

/// Metadata stands for each of its parts.
pub proof fn law_metadata_view(metadata: AssetMetadata)
    ensures
        metadata@.id == metadata.id.0@,
        metadata@.search_tags == tags_model(metadata.search_tags@),
        metadata@.build_deps == refs_model(metadata.build_deps@),
        metadata@.load_deps == refs_model(metadata.load_deps@),
        metadata@.asset_type == metadata.asset_type.0@,
        metadata@.build_pipeline is Some <==> metadata.build_pipeline is Some,
        metadata.build_pipeline matches Some(pipeline) ==> metadata@.build_pipeline == Some(
            pipeline.0@,
        ),
{
}

/// A stored reference stands for its bytes, or for why it cannot be read.
pub proof fn law_stored_refs_view(refs: Seq<StoredRef>)
    ensures
        stored_list_model(refs).len() == refs.len(),
        forall|i: int|
            0 <= i < refs.len() ==> #[trigger] stored_list_model(refs)[i] == (match refs[i] {
                StoredRef::Path(bytes) => StoredRefModel::Path(bytes@),
                StoredRef::Uuid(bytes) => StoredRefModel::Uuid(bytes@),
                StoredRef::Unreadable(e) => StoredRefModel::Unreadable(e),
            }),
{
}

/// Whether a field of bytes and its model hold the same bytes or the same error.
pub open spec fn same_bytes_field(field: Field<Vec<u8>>, model: Field<Seq<u8>>) -> bool {
    match field {
        Ok(bytes) => model == Field::<Seq<u8>>::Ok(bytes@),
        Err(e) => model == Field::<Seq<u8>>::Err(e),
    }
}

/// A stored tag stands for its two fields.
pub proof fn law_stored_tag_view(tag: StoredTag)
    ensures
        same_bytes_field(tag.key, tag@.key),
        same_bytes_field(tag.value, tag@.value),
{
}

/// A stored record stands for each of its fields.
pub proof fn law_stored_metadata_view(record: StoredMetadata)
    ensures
        same_bytes_field(record.id, record@.id),
        same_bytes_field(record.build_pipeline, record@.build_pipeline),
        same_bytes_field(record.asset_type, record@.asset_type),
        record@.source == record.source,
        match record.search_tags {
            Ok(tags) => record@.search_tags matches Ok(model) && model.len() == tags@.len()
                && forall|i: int| 0 <= i < tags@.len() ==> #[trigger] model[i] == tags@[i]@,
            Err(e) => record@.search_tags matches Err(f) && f == e,
        },
        match record.build_deps {
            Ok(refs) => record@.build_deps matches Ok(model) && model == stored_list_model(refs@),
            Err(e) => record@.build_deps matches Err(f) && f == e,
        },
        match record.load_deps {
            Ok(refs) => record@.load_deps matches Ok(model) && model == stored_list_model(refs@),
            Err(e) => record@.load_deps matches Err(f) && f == e,
        },
        match record.latest_artifact {
            Err(e) => record@.latest_artifact matches Err(f) && f == e,
            Ok(LatestArtifact::Unnamed) => record@.latest_artifact == Field::<ArtifactModel>::Ok(
                ArtifactModel::Unnamed,
            ),
            Ok(LatestArtifact::Id(hash)) => record@.latest_artifact matches Ok(ArtifactModel::Id(h))
                && same_bytes_field(hash, h),
        },
{
    if let Ok(refs) = record.build_deps {
        assert(record@.build_deps->Ok_0 =~= stored_list_model(refs@));
    }
    if let Ok(refs) = record.load_deps {
        assert(record@.load_deps->Ok_0 =~= stored_list_model(refs@));
    }
}

/// A stored list stands for each of its items, in its place.
pub proof fn law_uuid_list_view(list: UuidList)
    ensures
        match list.list {
            Ok(items) => list@ matches Ok(model) && model.len() == items@.len() && forall|i: int|
                0 <= i < items@.len() ==> same_bytes_field(items@[i], #[trigger] model[i]),
            Err(e) => list@ matches Err(f) && f == e,
        },
{
}

/// A message stands for what it holds, or for why it cannot be opened.
pub proof fn law_message_view<T: View>(message: Message<T>)
    ensures
        match message.root {
            Ok(value) => message@ == Result::<T::V, ReadError>::Ok(value@),
            Err(e) => message@ == Result::<T::V, ReadError>::Err(e),
        },
{
}

/// An event stands for the asset that it is about and for its hashes.
pub proof fn law_event_view(event: ChangeEvent)
    ensures
        match event {
            ChangeEvent::Remove(id) => event@ == (EventModel::Remove { id: id.0@ }),
            ChangeEvent::ContentUpdate(evt) => event@ matches EventModel::ContentUpdate {
                id,
                import_hash,
                build_dep_hash,
            } && {
                &&& id == evt.id.0@
                &&& import_hash is Some <==> evt.import_hash is Some
                &&& evt.import_hash matches Some(h) ==> import_hash == Some(h@)
                &&& build_dep_hash is Some <==> evt.build_dep_hash is Some
                &&& evt.build_dep_hash matches Some(h) ==> build_dep_hash == Some(h@)
            },
        },
{
}

/// A list of events stands for each in its place.
pub proof fn law_events_view(events: Seq<ChangeEvent>)
    ensures
        events_model(events).len() == events.len(),
        forall|i: int| 0 <= i < events.len() ==> #[trigger] events_model(events)[i] == events[i]@,
{
}

/// An entry of the log stands for its key, its number, the asset that its event is
/// about and the hashes of it.
pub proof fn law_change_record_view(record: ChangeRecord)
    ensures
        record@.key == record.key@,
        match record.entry.root {
            Err(e) => record@.entry matches Err(f) && f == e,
            Ok(entry) => record@.entry matches Ok(model) && model.num == entry.num && (
            match entry.event {
                LoggedEvent::Remove { id } => model.event == (LoggedModel::Remove { id: id@ }),
                LoggedEvent::ContentUpdate { id, import_hash, build_dep_hash } => model.event matches
                    LoggedModel::ContentUpdate { id: i, import_hash: h, build_dep_hash: b } && {
                    &&& i == id@
                    &&& h is Some <==> import_hash is Some
                    &&& import_hash matches Some(x) ==> h == Some(x@)
                    &&& b == build_dep_hash@
                },
            }),
        },
{
}

/// What came of a computation stands for the same outcome, with the model of the
/// value that it ended with.
pub proof fn law_progress_view(
    met: Progress<Option<Vec<u8>>>,
    event: Progress<ChangeEvent>,
    events: Progress<Vec<ChangeEvent>>,
)
    ensures
        match met {
            Progress::Pending => met_model(met) is Pending,
            Progress::Aborted => met_model(met) is Aborted,
            Progress::Failed(e) => met_model(met) == Progress::<Option<Seq<u8>>>::Failed(e),
            Progress::Done(Some(h)) => met_model(met) == Progress::Done(Some(h@)),
            Progress::Done(None) => met_model(met) == Progress::Done(None::<Seq<u8>>),
        },
        match event {
            Progress::Pending => event_model(event) is Pending,
            Progress::Aborted => event_model(event) is Aborted,
            Progress::Failed(e) => event_model(event) == Progress::<EventModel>::Failed(e),
            Progress::Done(v) => event_model(event) == Progress::Done(v@),
        },
        match events {
            Progress::Pending => progress_model(events) is Pending,
            Progress::Aborted => progress_model(events) is Aborted,
            Progress::Failed(e) => progress_model(events) == Progress::<Seq<EventModel>>::Failed(e),
            Progress::Done(v) => progress_model(events) == Progress::Done(events_model(v@)),
        },
{
}

/// Bytes that may be missing stand for the same bytes, or for none.
pub proof fn law_optional_bytes_view(bytes: Option<Vec<u8>>)
    ensures
        match bytes {
            Some(b) => optional_bytes(bytes) == Some(b@),
            None => optional_bytes(bytes) is None,
        },
{
}

}
