//! What is read back of metadata that was written.
use vstd::prelude::*;
use vstd::utf8::{
    decode_utf8, encode_utf8, encode_utf8_decode_utf8, encode_utf8_valid_utf8, valid_utf8,
};

use crate::asset::{AssetMetadata, AssetSource, MetadataModel, RefModel, TagModel};
use crate::index_laws::{name_valid, names_valid};
use crate::message::{
    blank_record, ArtifactModel, Field, RecordModel, StoredRefModel, StoredTagModel,
};
use crate::metadata::{
    parsed_record, parsed_ref, parsed_refs, parsed_tag, parsed_tags, record_parses, ref_parses,
    refs_parse, stored_ref_list, stored_tag, stored_tag_list, tag_parses, tags_parse, with_refs,
    written_record,
};

verus! {

/// Every name in metadata has its sixteen bytes.
pub proof fn law_names_valid(metadata: AssetMetadata)
    ensures
        names_valid(metadata@),
{
    assert forall|i: int| 0 <= i < metadata@.build_deps.len() implies name_valid(
        #[trigger] metadata@.build_deps[i],
    ) by {
        assert(metadata@.build_deps[i] == metadata.build_deps@[i]@);
    }
    assert forall|i: int| 0 <= i < metadata@.load_deps.len() implies name_valid(
        #[trigger] metadata@.load_deps[i],
    ) by {
        assert(metadata@.load_deps[i] == metadata.load_deps@[i]@);
    }
}

/// A tag as it is read back: an empty value is none.
pub open spec fn tag_read_back(tag: TagModel) -> TagModel {
    (
        tag.0,
        match tag.1 {
            Some(value) => if value.len() > 0 {
                Some(value)
            } else {
                None
            },
            None => None,
        },
    )
}

/// Metadata as it is read back: tags with an empty value have none, and a
/// pipeline has the bytes of the asset type.
pub open spec fn read_back(metadata: MetadataModel) -> MetadataModel {
    MetadataModel {
        search_tags: metadata.search_tags.map_values(|t: TagModel| tag_read_back(t)),
        build_pipeline: match metadata.build_pipeline {
            Some(_) => Some(metadata.asset_type),
            None => None,
        },
        ..metadata
    }
}

/// Text is read back as it was written, and only empty text takes no bytes.
proof fn lemma_text(text: Seq<char>)
    ensures
        valid_utf8(encode_utf8(text)),
        decode_utf8(encode_utf8(text)) == text,
        encode_utf8(text).len() > 0 <==> text.len() > 0,
{
    encode_utf8_valid_utf8(text);
    encode_utf8_decode_utf8(text);
    if encode_utf8(text).len() == 0 {
        assert(decode_utf8(encode_utf8(text)).len() == 0);
    }
}

/// Each reference that was written into a list reads back as it was. The list
/// keeps its length, and the places behind those that were written.
pub proof fn law_references_read_back(list: Seq<StoredRefModel>, refs: Seq<RefModel>)
    requires
        refs.len() <= list.len(),
        forall|i: int| 0 <= i < refs.len() ==> name_valid(#[trigger] refs[i]),
    ensures
        with_refs(list, refs).len() == list.len(),
        forall|i: int|
            0 <= i < refs.len() ==> ref_parses(#[trigger] with_refs(list, refs)[i]) && parsed_ref(
                with_refs(list, refs)[i],
            ) == refs[i],
        forall|i: int|
            0 <= i < refs.len() ==> #[trigger] with_refs(list, refs)[i] == (match refs[i] {
                RefModel::Uuid(uuid) => StoredRefModel::Uuid(uuid),
                RefModel::Path(path) => StoredRefModel::Path(encode_utf8(path)),
            }),
        forall|i: int|
            refs.len() <= i < list.len() ==> #[trigger] with_refs(list, refs)[i] == list[i],
{
    let after = with_refs(list, refs);
    assert forall|i: int| 0 <= i < refs.len() implies ref_parses(#[trigger] after[i]) && parsed_ref(
        after[i],
    ) == refs[i] by {
        assert(name_valid(refs[i]));
        if let RefModel::Path(path) = refs[i] {
            lemma_text(path);
        }
    }
}

/// References that were stored read back as they were.
proof fn lemma_refs(refs: Seq<RefModel>)
    requires
        forall|i: int| 0 <= i < refs.len() ==> name_valid(#[trigger] refs[i]),
    ensures
        refs_parse(Ok(stored_ref_list(refs))),
        parsed_refs(Ok(stored_ref_list(refs))) == refs,
{
    let stored = stored_ref_list(refs);
    law_references_read_back(stored, refs);
    assert(with_refs(stored, refs) =~= stored);
    assert forall|i: int| 0 <= i < refs.len() implies ref_parses(#[trigger] stored[i])
        && parsed_ref(stored[i]) == refs[i] by {
        assert(with_refs(stored, refs)[i] == stored[i]);
    }
    assert(parsed_refs(Field::<Seq<StoredRefModel>>::Ok(stored)) =~= refs);
}

proof fn lemma_tags(tags: Seq<TagModel>)
    ensures
        tags_parse(Ok(stored_tag_list(tags))),
        parsed_tags(Ok(stored_tag_list(tags))) == tags.map_values(|t: TagModel| tag_read_back(t)),
{
    let stored = stored_tag_list(tags);
    assert forall|i: int| 0 <= i < tags.len() implies tag_parses(#[trigger] stored[i])
        && parsed_tag(stored[i]) == tag_read_back(tags[i]) by {
        assert(stored[i] == stored_tag(tags[i]));
        lemma_text(tags[i].0);
        match tags[i].1 {
            Some(value) => lemma_text(value),
            None => lemma_text(Seq::empty()),
        }
        assert(encode_utf8(Seq::empty()) =~= Seq::<u8>::empty());
    }
    assert(parsed_tags(Field::<Seq<StoredTagModel>>::Ok(stored)) =~= tags.map_values(
        |t: TagModel| tag_read_back(t),
    ));
}

/// Metadata that was written into a new message can be read, and reads as
/// [`read_back`] says.
pub proof fn law_metadata_read_back(
    metadata: MetadataModel,
    artifact_hash: Option<Seq<u8>>,
    source: AssetSource,
)
    requires
        names_valid(metadata),
    ensures
        record_parses(written_record(blank_record(), metadata, artifact_hash, source)),
        parsed_record(written_record(blank_record(), metadata, artifact_hash, source)) == read_back(
            metadata,
        ),
{
    lemma_refs(metadata.build_deps);
    lemma_refs(metadata.load_deps);
    lemma_tags(metadata.search_tags);
}

/// Metadata is read back as it was written, unless a tag has an empty value or
/// the pipeline has other bytes than the asset type.
pub proof fn law_metadata_round_trip(
    metadata: MetadataModel,
    artifact_hash: Option<Seq<u8>>,
    source: AssetSource,
)
    requires
        names_valid(metadata),
        forall|i: int|
            0 <= i < metadata.search_tags.len() ==> ((#[trigger] metadata.search_tags[i]).1
                != Some(Seq::<char>::empty())),
        metadata.build_pipeline is None || metadata.build_pipeline == Some(metadata.asset_type),
    ensures
        parsed_record(written_record(blank_record(), metadata, artifact_hash, source)) == metadata,
{
    law_metadata_read_back(metadata, artifact_hash, source);
    assert forall|i: int| 0 <= i < metadata.search_tags.len() implies tag_read_back(
        #[trigger] metadata.search_tags[i],
    ) == metadata.search_tags[i] by {
        if let Some(value) = metadata.search_tags[i].1 {
            if value.len() == 0 {
                assert(value =~= Seq::<char>::empty());
            }
        }
    }
    assert(read_back(metadata).search_tags =~= metadata.search_tags);
}

/// Whether `stored` holds the references `refs`: a name by its bytes, a path by
/// its text in UTF-8, each in its place.
pub open spec fn holds_refs(stored: Seq<StoredRefModel>, refs: Seq<RefModel>) -> bool {
    &&& stored.len() == refs.len()
    &&& forall|i: int|
        0 <= i < refs.len() ==> #[trigger] stored[i] == (match refs[i] {
            RefModel::Uuid(uuid) => StoredRefModel::Uuid(uuid),
            RefModel::Path(path) => StoredRefModel::Path(encode_utf8(path)),
        })
}

/// Whether `stored` holds the tags `tags`: keys and values by their text in UTF-8,
/// and no bytes for a value that is missing, each in its place.
pub open spec fn holds_tags(stored: Seq<StoredTagModel>, tags: Seq<TagModel>) -> bool {
    &&& stored.len() == tags.len()
    &&& forall|i: int|
        0 <= i < tags.len() ==> {
            &&& (#[trigger] stored[i]).key == Field::<Seq<u8>>::Ok(encode_utf8(tags[i].0))
            &&& tags[i].1 matches Some(value) ==> stored[i].value == Field::<Seq<u8>>::Ok(
                encode_utf8(value),
            )
            &&& tags[i].1 is None ==> stored[i].value == Field::<Seq<u8>>::Ok(Seq::empty())
        }
}

/// Whether each field of `record` holds the part of `metadata` that it is for. The
/// pipeline is the one that the metadata names.
pub open spec fn holds_metadata(
    record: RecordModel,
    metadata: MetadataModel,
    source: AssetSource,
) -> bool {
    &&& record.id == Field::<Seq<u8>>::Ok(metadata.id)
    &&& record.asset_type == Field::<Seq<u8>>::Ok(metadata.asset_type)
    &&& record.source == source
    &&& record.search_tags matches Ok(tags) && holds_tags(tags, metadata.search_tags)
    &&& record.build_deps matches Ok(deps) && holds_refs(deps, metadata.build_deps)
    &&& record.load_deps matches Ok(deps) && holds_refs(deps, metadata.load_deps)
    &&& metadata.build_pipeline matches Some(pipeline) ==> record.build_pipeline == Field::<
        Seq<u8>,
    >::Ok(pipeline)
}

/// Metadata that is written over a message is in it, field by field: the bytes of
/// its id, of its type and of the pipeline that it names, its tags and references
/// each in its place, the source and the hash that were given. A pipeline or a
/// hash that is missing leaves what was there.
pub proof fn law_written_fields(
    before: RecordModel,
    metadata: MetadataModel,
    artifact_hash: Option<Seq<u8>>,
    source: AssetSource,
)
    ensures
        ({
            let record = written_record(before, metadata, artifact_hash, source);
            &&& holds_metadata(record, metadata, source)
            &&& metadata.build_pipeline is None ==> record.build_pipeline == before.build_pipeline
            &&& artifact_hash matches Some(hash) ==> record.latest_artifact == Field::<
                ArtifactModel,
            >::Ok(ArtifactModel::Id(Ok(hash)))
            &&& artifact_hash is None ==> record.latest_artifact == before.latest_artifact
        }),
{
    let record = written_record(before, metadata, artifact_hash, source);
    assert(holds_tags(record.search_tags->Ok_0, metadata.search_tags));
    assert(holds_refs(record.build_deps->Ok_0, metadata.build_deps));
    assert(holds_refs(record.load_deps->Ok_0, metadata.load_deps));
}

/// In a message with no field written, every field reads as empty.
pub proof fn law_blank_message()
    ensures
        ({
            let record = blank_record();
            let none = Field::<Seq<u8>>::Ok(Seq::empty());
            &&& record.id == none
            &&& record.asset_type == none
            &&& record.build_pipeline == none
            &&& record.search_tags matches Ok(tags) && tags.len() == 0
            &&& record.build_deps matches Ok(deps) && deps.len() == 0
            &&& record.load_deps matches Ok(deps) && deps.len() == 0
            &&& record.latest_artifact == Field::<ArtifactModel>::Ok(ArtifactModel::Unnamed)
            &&& record.source == AssetSource(0)
        }),
{
}

/// Different metadata gives different messages, unless it differs only in that a
/// tag has an empty value in one and none in the other. So no part of it is lost,
/// the pipeline included.
pub proof fn law_messages_tell_metadata_apart(
    one: MetadataModel,
    other: MetadataModel,
    artifact_hash: Option<Seq<u8>>,
    source: AssetSource,
)
    requires
        names_valid(one),
        names_valid(other),
        written_record(blank_record(), one, artifact_hash, source) == written_record(
            blank_record(),
            other,
            artifact_hash,
            source,
        ),
    ensures
        one.id == other.id,
        one.asset_type == other.asset_type,
        one.build_pipeline == other.build_pipeline,
        one.build_deps == other.build_deps,
        one.load_deps == other.load_deps,
        one.search_tags.len() == other.search_tags.len(),
        forall|i: int|
            0 <= i < one.search_tags.len() ==> {
                let a = #[trigger] one.search_tags[i];
                let b = other.search_tags[i];
                &&& a.0 == b.0
                &&& a.1 == b.1 || (a.1 matches Some(v) ==> v.len() == 0) && (b.1 matches Some(v)
                    ==> v.len() == 0)
            },
{
    law_written_fields(blank_record(), one, artifact_hash, source);
    law_written_fields(blank_record(), other, artifact_hash, source);
    let record = written_record(blank_record(), one, artifact_hash, source);
    lemma_refs_told_apart(record.build_deps->Ok_0, one.build_deps, other.build_deps);
    lemma_refs_told_apart(record.load_deps->Ok_0, one.load_deps, other.load_deps);
    assert forall|i: int| 0 <= i < one.search_tags.len() implies {
        let a = #[trigger] one.search_tags[i];
        let b = other.search_tags[i];
        &&& a.0 == b.0
        &&& a.1 == b.1 || (a.1 matches Some(v) ==> v.len() == 0) && (b.1 matches Some(v) ==> v.len()
            == 0)
    } by {
        let a = one.search_tags[i];
        let b = other.search_tags[i];
        let stored = record.search_tags->Ok_0[i];
        lemma_text(a.0);
        lemma_text(b.0);
        if let Some(v) = a.1 {
            lemma_text(v);
        }
        if let Some(v) = b.1 {
            lemma_text(v);
        }
        assert(stored.key == Field::<Seq<u8>>::Ok(encode_utf8(a.0)));
        assert(stored.key == Field::<Seq<u8>>::Ok(encode_utf8(b.0)));
    }
}

/// A stored list of references holds one list alone.
proof fn lemma_refs_told_apart(
    stored: Seq<StoredRefModel>,
    one: Seq<RefModel>,
    other: Seq<RefModel>,
)
    requires
        holds_refs(stored, one),
        holds_refs(stored, other),
    ensures
        one == other,
{
    assert forall|i: int| 0 <= i < one.len() implies one[i] == other[i] by {
        assert(stored[i] is Uuid <==> one[i] is Uuid);
        assert(stored[i] is Uuid <==> other[i] is Uuid);
        if let RefModel::Path(path) = one[i] {
            lemma_text(path);
        }
        if let RefModel::Path(path) = other[i] {
            lemma_text(path);
        }
    }
    assert(one =~= other);
}

/// A message parses just when its id and its type are sixteen bytes long, its
/// pipeline can be read, its tags are UTF-8, and each reference is a path in UTF-8
/// or a name of sixteen bytes.
pub proof fn law_what_parses(record: RecordModel)
    ensures
        record_parses(record) <==> {
            &&& record.id matches Ok(id) && id.len() == 16
            &&& record.asset_type matches Ok(t) && t.len() == 16
            &&& record.build_pipeline is Ok
            &&& record.search_tags matches Ok(tags) && forall|i: int|
                0 <= i < tags.len() ==> {
                    &&& (#[trigger] tags[i]).key matches Ok(key) && valid_utf8(key)
                    &&& tags[i].value matches Ok(value) && valid_utf8(value)
                }
            &&& record.build_deps matches Ok(refs) && forall|i: int|
                0 <= i < refs.len() ==> match #[trigger] refs[i] {
                    StoredRefModel::Path(path) => valid_utf8(path),
                    StoredRefModel::Uuid(uuid) => uuid.len() == 16,
                    StoredRefModel::Unreadable(_) => false,
                }
            &&& record.load_deps matches Ok(refs) && forall|i: int|
                0 <= i < refs.len() ==> match #[trigger] refs[i] {
                    StoredRefModel::Path(path) => valid_utf8(path),
                    StoredRefModel::Uuid(uuid) => uuid.len() == 16,
                    StoredRefModel::Unreadable(_) => false,
                }
        },
{
    if let Ok(refs) = record.build_deps {
        assert forall|i: int| 0 <= i < refs.len() implies ref_parses(#[trigger] refs[i]) == (
        match refs[i] {
            StoredRefModel::Path(path) => valid_utf8(path),
            StoredRefModel::Uuid(uuid) => uuid.len() == 16,
            StoredRefModel::Unreadable(_) => false,
        }) by {
        }
    }
    if let Ok(refs) = record.load_deps {
        assert forall|i: int| 0 <= i < refs.len() implies ref_parses(#[trigger] refs[i]) == (
        match refs[i] {
            StoredRefModel::Path(path) => valid_utf8(path),
            StoredRefModel::Uuid(uuid) => uuid.len() == 16,
            StoredRefModel::Unreadable(_) => false,
        }) by {
        }
    }
    if let Ok(tags) = record.search_tags {
        assert forall|i: int| 0 <= i < tags.len() implies tag_parses(#[trigger] tags[i]) == ((
        tags[i].key matches Ok(key) && valid_utf8(key)) && (tags[i].value matches Ok(value)
            && valid_utf8(value))) by {
        }
    }
}

/// Whether `refs` is what `stored` reads as: names as they are, and paths as the
/// text that their bytes encode, each in its place.
pub open spec fn reads_as_refs(stored: Seq<StoredRefModel>, refs: Seq<RefModel>) -> bool {
    &&& refs.len() == stored.len()
    &&& forall|i: int|
        0 <= i < stored.len() ==> (match stored[i] {
            StoredRefModel::Uuid(uuid) => #[trigger] refs[i] == RefModel::Uuid(uuid),
            StoredRefModel::Path(path) => refs[i] == RefModel::Path(decode_utf8(path)),
            StoredRefModel::Unreadable(_) => true,
        })
}

/// A message that parses reads as the metadata in its fields: the id, the type,
/// each tag and each reference in its place. A tag whose value takes no bytes has
/// none. There is a pipeline just when the message names one.
pub proof fn law_parsed_fields(record: RecordModel)
    requires
        record_parses(record),
    ensures
        ({
            let metadata = parsed_record(record);
            &&& record.id == Field::<Seq<u8>>::Ok(metadata.id)
            &&& record.asset_type == Field::<Seq<u8>>::Ok(metadata.asset_type)
            &&& metadata.build_pipeline is Some <==> record.build_pipeline->Ok_0.len() > 0
            &&& metadata.build_pipeline matches Some(p) ==> record.asset_type == Field::<
                Seq<u8>,
            >::Ok(p)
            &&& reads_as_refs(record.build_deps->Ok_0, metadata.build_deps)
            &&& reads_as_refs(record.load_deps->Ok_0, metadata.load_deps)
            &&& metadata.search_tags.len() == record.search_tags->Ok_0.len()
            &&& forall|i: int|
                0 <= i < metadata.search_tags.len() ==> {
                    let tag = #[trigger] metadata.search_tags[i];
                    let stored = record.search_tags->Ok_0[i];
                    &&& tag.0 == decode_utf8(stored.key->Ok_0)
                    &&& tag.1 is Some <==> stored.value->Ok_0.len() > 0
                    &&& tag.1 matches Some(value) ==> value == decode_utf8(stored.value->Ok_0)
                }
        }),
{
}

}
