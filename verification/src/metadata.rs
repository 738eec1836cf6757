//! Writing asset metadata into messages, and reading it back.
use vstd::prelude::*;
use vstd::slice::slice_to_vec;
use vstd::utf8::{decode_utf8, encode_utf8, valid_utf8};

use crate::asset::{
    make_array, refs_model, tag_model, tags_model, AssetMetadata, AssetRef, AssetSource,
    AssetTypeId, AssetUuid, MetadataModel, RefModel, SearchTag, TagModel, UUID_LEN,
};
use crate::message::{
    bytes_model, blank_record, stored_refs_model, stored_tags_model, ArtifactModel, Field,
    LatestArtifact, Message, RecordModel, StoredMetadata, StoredRef, StoredRefModel, StoredTag,
    StoredTagModel,
};

verus! {

/// How a reference is stored: a path as its text in UTF-8, a name as it is.
pub open spec fn stored_ref(reference: RefModel) -> StoredRefModel {
    match reference {
        RefModel::Path(path) => StoredRefModel::Path(encode_utf8(path)),
        RefModel::Uuid(uuid) => StoredRefModel::Uuid(uuid),
    }
}

/// How a list of references is stored: each in its place.
pub open spec fn stored_ref_list(refs: Seq<RefModel>) -> Seq<StoredRefModel> {
    refs.map_values(|r: RefModel| stored_ref(r))
}

/// How a tag is stored: its texts in UTF-8, and a missing value as an empty one.
pub open spec fn stored_tag(tag: TagModel) -> StoredTagModel {
    StoredTagModel {
        key: Ok(encode_utf8(tag.0)),
        value: Ok(
            match tag.1 {
                Some(value) => encode_utf8(value),
                None => Seq::empty(),
            },
        ),
    }
}

/// How a list of tags is stored: each in its place.
pub open spec fn stored_tag_list(tags: Seq<TagModel>) -> Seq<StoredTagModel> {
    tags.map_values(|t: TagModel| stored_tag(t))
}

/// What `before` becomes when `metadata` is written over it. The pipeline and
/// the artifact are left as they were where there is none to write.
pub open spec fn written_record(
    before: RecordModel,
    metadata: MetadataModel,
    artifact_hash: Option<Seq<u8>>,
    source: AssetSource,
) -> RecordModel {
    RecordModel {
        id: Ok(metadata.id),
        search_tags: Ok(stored_tag_list(metadata.search_tags)),
        build_deps: Ok(stored_ref_list(metadata.build_deps)),
        load_deps: Ok(stored_ref_list(metadata.load_deps)),
        build_pipeline: match metadata.build_pipeline {
            Some(pipeline) => Ok(pipeline),
            None => before.build_pipeline,
        },
        asset_type: Ok(metadata.asset_type),
        latest_artifact: match artifact_hash {
            Some(hash) => Ok(ArtifactModel::Id(Ok(hash))),
            None => before.latest_artifact,
        },
        source,
    }
}

/// A list of stored references with its first places taken by `refs`.
pub open spec fn with_refs(list: Seq<StoredRefModel>, refs: Seq<RefModel>) -> Seq<StoredRefModel> {
    Seq::new(
        list.len(),
        |i: int|
            if i < refs.len() {
                stored_ref(refs[i])
            } else {
                list[i]
            },
    )
}

/// The model of a list of stored references.
pub open spec fn stored_list_model(list: Seq<StoredRef>) -> Seq<StoredRefModel> {
    list.map_values(|r: StoredRef| r@)
}

/// Writes references into the first places of a list.
pub fn set_assetref_list(asset_ids: &Vec<AssetRef>, builder: &mut Vec<StoredRef>)
    requires
        asset_ids@.len() <= old(builder)@.len(),
    ensures
        stored_list_model(final(builder)@) == with_refs(
            stored_list_model(old(builder)@),
            refs_model(asset_ids@),
        ),
{
    let mut i: usize = 0;
    while i < asset_ids.len()
        invariant
            i <= asset_ids@.len() <= old(builder)@.len(),
            builder@.len() == old(builder)@.len(),
            forall|j: int|
                0 <= j < i ==> (#[trigger] builder@[j])@ == stored_ref(asset_ids@[j]@),
            forall|j: int| i <= j < builder@.len() ==> #[trigger] builder@[j] == old(builder)@[j],
        decreases asset_ids@.len() - i,
    {
        let stored = match &asset_ids[i] {
            AssetRef::Path(path) => StoredRef::Path(slice_to_vec(path.as_str().as_bytes())),
            AssetRef::Uuid(uuid) => StoredRef::Uuid(slice_to_vec(uuid.0.as_slice())),
        };
        builder.set(i, stored);
        i += 1;
    }
    assert(stored_list_model(builder@) =~= with_refs(
        stored_list_model(old(builder)@),
        refs_model(asset_ids@),
    ));
}

/// A list with room for `len` references, none of them written yet.
fn init_assetref_list(len: usize) -> (list: Vec<StoredRef>)
    ensures
        list@.len() == len,
{
    let mut list: Vec<StoredRef> = Vec::new();
    let mut i: usize = 0;
    while i < len
        invariant
            i <= len,
            list@.len() == i,
        decreases len - i,
    {
        list.push(StoredRef::Path(Vec::new()));
        i += 1;
    }
    list
}

/// Stores a list of references.
fn store_refs(asset_ids: &Vec<AssetRef>) -> (list: Vec<StoredRef>)
    ensures
        stored_refs_model(Ok(list)) == Field::<Seq<StoredRefModel>>::Ok(
            stored_ref_list(refs_model(asset_ids@)),
        ),
{
    let mut list = init_assetref_list(asset_ids.len());
    set_assetref_list(asset_ids, &mut list);
    assert(stored_list_model(list@) =~= stored_ref_list(refs_model(asset_ids@)));
    list
}

/// Stores a list of tags.
fn set_search_tags(tags: &Vec<SearchTag>) -> (list: Vec<StoredTag>)
    ensures
        stored_tags_model(Ok(list)) == Field::<Seq<StoredTagModel>>::Ok(
            stored_tag_list(tags_model(tags@)),
        ),
{
    let mut list: Vec<StoredTag> = Vec::new();
    let mut i: usize = 0;
    while i < tags.len()
        invariant
            i <= tags@.len(),
            list@.len() == i,
            forall|j: int|
                0 <= j < i ==> (#[trigger] list@[j])@ == stored_tag(tag_model(tags@[j])),
        decreases tags@.len() - i,
    {
        let key = slice_to_vec(tags[i].0.as_str().as_bytes());
        let value = match &tags[i].1 {
            Some(value) => slice_to_vec(value.as_str().as_bytes()),
            None => Vec::new(),
        };
        list.push(StoredTag { key: Ok(key), value: Ok(value) });
        i += 1;
    }
    assert(list@.map_values(|t: StoredTag| t@) =~= stored_tag_list(tags_model(tags@)));
    list
}

/// Writes metadata over a message, together with the hash of the artifact that
/// was imported, if there is one, and where the asset came from.
pub fn build_asset_metadata(
    metadata: &AssetMetadata,
    m: &mut StoredMetadata,
    artifact_hash: Option<&[u8]>,
    source: AssetSource,
)
    ensures
        final(m)@ == written_record(
            old(m)@,
            metadata@,
            match artifact_hash {
                Some(hash) => Some(hash@),
                None => None,
            },
            source,
        ),
{
    m.id = Ok(slice_to_vec(metadata.id.0.as_slice()));
    if let Some(pipeline) = metadata.build_pipeline {
        m.build_pipeline = Ok(slice_to_vec(pipeline.0.as_slice()));
    }
    m.load_deps = Ok(store_refs(&metadata.load_deps));
    m.build_deps = Ok(store_refs(&metadata.build_deps));
    m.search_tags = Ok(set_search_tags(&metadata.search_tags));
    if let Some(hash) = artifact_hash {
        m.latest_artifact = Ok(LatestArtifact::Id(Ok(slice_to_vec(hash))));
    }
    m.asset_type = Ok(slice_to_vec(metadata.asset_type.0.as_slice()));
    m.source = source;
}

/// Writes metadata into a new message.
pub fn build_asset_metadata_message(
    metadata: &AssetMetadata,
    artifact_hash: Option<&[u8]>,
    source: AssetSource,
) -> (message: Message<StoredMetadata>)
    ensures
        message@ == Field::<RecordModel>::Ok(
            written_record(
                blank_record(),
                metadata@,
                match artifact_hash {
                    Some(hash) => Some(hash@),
                    None => None,
                },
                source,
            ),
        ),
{
    let mut m = StoredMetadata::new();
    build_asset_metadata(metadata, &mut m, artifact_hash, source);
    Message::new(m)
}

/// Whether a stored reference can be read: a path must be UTF-8, and a name
/// must be sixteen bytes long.
pub open spec fn ref_parses(reference: StoredRefModel) -> bool {
    match reference {
        StoredRefModel::Path(bytes) => valid_utf8(bytes),
        StoredRefModel::Uuid(bytes) => bytes.len() == UUID_LEN,
        StoredRefModel::Unreadable(_) => false,
    }
}

/// What a stored reference that [`ref_parses`] reads as.
pub open spec fn parsed_ref(reference: StoredRefModel) -> RefModel {
    match reference {
        StoredRefModel::Path(bytes) => RefModel::Path(decode_utf8(bytes)),
        StoredRefModel::Uuid(bytes) => RefModel::Uuid(bytes),
        StoredRefModel::Unreadable(_) => RefModel::Uuid(Seq::empty()),
    }
}

/// Whether each of a field's references can be read.
pub open spec fn refs_parse(field: Field<Seq<StoredRefModel>>) -> bool {
    field matches Ok(refs) && forall|i: int| 0 <= i < refs.len() ==> ref_parses(#[trigger] refs[i])
}

/// What a field of references reads as.
pub open spec fn parsed_refs(field: Field<Seq<StoredRefModel>>) -> Seq<RefModel> {
    field->Ok_0.map_values(|r: StoredRefModel| parsed_ref(r))
}

/// Whether a field of bytes holds UTF-8.
pub open spec fn text_parses(field: Field<Seq<u8>>) -> bool {
    field matches Ok(bytes) && valid_utf8(bytes)
}

/// Whether a stored tag can be read.
pub open spec fn tag_parses(tag: StoredTagModel) -> bool {
    text_parses(tag.key) && text_parses(tag.value)
}

/// What a stored tag that [`tag_parses`] reads as: an empty value is none.
pub open spec fn parsed_tag(tag: StoredTagModel) -> TagModel {
    (
        decode_utf8(tag.key->Ok_0),
        if tag.value->Ok_0.len() > 0 {
            Some(decode_utf8(tag.value->Ok_0))
        } else {
            None
        },
    )
}

/// Whether each of a field's tags can be read.
pub open spec fn tags_parse(field: Field<Seq<StoredTagModel>>) -> bool {
    field matches Ok(tags) && forall|i: int| 0 <= i < tags.len() ==> tag_parses(#[trigger] tags[i])
}

/// What a field of tags reads as.
pub open spec fn parsed_tags(field: Field<Seq<StoredTagModel>>) -> Seq<TagModel> {
    field->Ok_0.map_values(|t: StoredTagModel| parsed_tag(t))
}

/// Whether a field holds a name of sixteen bytes.
pub open spec fn uuid_parses(field: Field<Seq<u8>>) -> bool {
    field matches Ok(bytes) && bytes.len() == UUID_LEN
}

/// Whether every field that [`parse_db_metadata`] reads can be read.
pub open spec fn record_parses(record: RecordModel) -> bool {
    &&& uuid_parses(record.id)
    &&& tags_parse(record.search_tags)
    &&& refs_parse(record.load_deps)
    &&& refs_parse(record.build_deps)
    &&& uuid_parses(record.asset_type)
    &&& record.build_pipeline is Ok
}

/// What a record that [`record_parses`] reads as. A record that names a
/// pipeline reads as one whose pipeline has the bytes of the asset type.
pub open spec fn parsed_record(record: RecordModel) -> MetadataModel {
    MetadataModel {
        id: record.id->Ok_0,
        search_tags: parsed_tags(record.search_tags),
        build_deps: parsed_refs(record.build_deps),
        load_deps: parsed_refs(record.load_deps),
        build_pipeline: if record.build_pipeline->Ok_0.len() > 0 {
            Some(record.asset_type->Ok_0)
        } else {
            None
        },
        asset_type: record.asset_type->Ok_0,
    }
}

/// [`std::str::from_utf8`]: gives the text that the bytes encode exactly when
/// they are valid UTF-8.
#[verifier::external_body]
fn read_utf8(bytes: &[u8]) -> (text: Option<&str>)
    ensures
        text is Some <==> valid_utf8(bytes@),
        text matches Some(t) ==> t@ == decode_utf8(bytes@),
{
    std::str::from_utf8(bytes).ok()
}

/// The text that a field of UTF-8 holds.
fn expect_text(field: &Field<Vec<u8>>) -> (text: String)
    requires
        text_parses(bytes_model(*field)),
    ensures
        text@ == decode_utf8(bytes_model(*field)->Ok_0),
{
    read_utf8(expect_bytes(field).as_slice()).unwrap().to_owned()
}

/// The bytes that a field holds.
fn expect_bytes(field: &Field<Vec<u8>>) -> (bytes: &Vec<u8>)
    requires
        bytes_model(*field) is Ok,
    ensures
        bytes@ == bytes_model(*field)->Ok_0,
{
    match field {
        Ok(bytes) => bytes,
        Err(_) => vstd::pervasive::unreached(),
    }
}

/// Reads a stored reference.
pub fn parse_db_asset_ref(asset_ref: &StoredRef) -> (res: AssetRef)
    requires
        ref_parses(asset_ref@),
    ensures
        res@ == parsed_ref(asset_ref@),
{
    match asset_ref {
        StoredRef::Path(bytes) => AssetRef::Path(
            read_utf8(bytes.as_slice()).unwrap().to_owned(),
        ),
        StoredRef::Uuid(bytes) => AssetRef::Uuid(AssetUuid(make_array(bytes.as_slice()))),
        StoredRef::Unreadable(_) => vstd::pervasive::unreached(),
    }
}

/// Reads a field of references.
fn parse_refs(field: &Field<Vec<StoredRef>>) -> (refs: Vec<AssetRef>)
    requires
        refs_parse(stored_refs_model(*field)),
    ensures
        refs_model(refs@) == parsed_refs(stored_refs_model(*field)),
{
    let stored: &Vec<StoredRef> = match field {
        Ok(stored) => stored,
        Err(_) => vstd::pervasive::unreached(),
    };
    let mut refs: Vec<AssetRef> = Vec::new();
    let mut i: usize = 0;
    while i < stored.len()
        invariant
            i <= stored@.len(),
            stored_refs_model(*field) == Field::<Seq<StoredRefModel>>::Ok(
                stored@.map_values(|r: StoredRef| r@),
            ),
            refs_parse(stored_refs_model(*field)),
            refs@.len() == i,
            forall|j: int| 0 <= j < i ==> (#[trigger] refs@[j])@ == parsed_ref(stored@[j]@),
        decreases stored@.len() - i,
    {
        assert(ref_parses(stored_refs_model(*field)->Ok_0[i as int]));
        refs.push(parse_db_asset_ref(&stored[i]));
        i += 1;
    }
    assert(refs_model(refs@) =~= parsed_refs(stored_refs_model(*field)));
    refs
}

/// Reads a field of tags.
fn parse_tags(field: &Field<Vec<StoredTag>>) -> (tags: Vec<SearchTag>)
    requires
        tags_parse(stored_tags_model(*field)),
    ensures
        tags_model(tags@) == parsed_tags(stored_tags_model(*field)),
{
    let stored: &Vec<StoredTag> = match field {
        Ok(stored) => stored,
        Err(_) => vstd::pervasive::unreached(),
    };
    let mut tags: Vec<SearchTag> = Vec::new();
    let mut i: usize = 0;
    while i < stored.len()
        invariant
            i <= stored@.len(),
            stored_tags_model(*field) == Field::<Seq<StoredTagModel>>::Ok(
                stored@.map_values(|t: StoredTag| t@),
            ),
            tags_parse(stored_tags_model(*field)),
            tags@.len() == i,
            forall|j: int|
                0 <= j < i ==> tag_model(#[trigger] tags@[j]) == parsed_tag(stored@[j]@),
        decreases stored@.len() - i,
    {
        assert(tag_parses(stored_tags_model(*field)->Ok_0[i as int]));
        let key = expect_text(&stored[i].key);
        let value = expect_text(&stored[i].value);
        let tag = if expect_bytes(&stored[i].value).len() > 0 {
            (key, Some(value))
        } else {
            (key, None)
        };
        tags.push(tag);
        i += 1;
    }
    assert(tags_model(tags@) =~= parsed_tags(stored_tags_model(*field)));
    tags
}

/// Whether a field of bytes holds UTF-8.
fn check_text(field: &Field<Vec<u8>>) -> (res: bool)
    ensures
        res == text_parses(bytes_model(*field)),
{
    match field {
        Ok(bytes) => read_utf8(bytes.as_slice()).is_some(),
        Err(_) => false,
    }
}

/// Whether a field holds a name of sixteen bytes.
fn check_uuid(field: &Field<Vec<u8>>) -> (res: bool)
    ensures
        res == uuid_parses(bytes_model(*field)),
{
    match field {
        Ok(bytes) => bytes.len() == UUID_LEN,
        Err(_) => false,
    }
}

/// Whether each of a field's references can be read.
fn check_refs(field: &Field<Vec<StoredRef>>) -> (res: bool)
    ensures
        res == refs_parse(stored_refs_model(*field)),
{
    let stored: &Vec<StoredRef> = match field {
        Ok(stored) => stored,
        Err(_) => {
            return false;
        },
    };
    let ghost model = stored@.map_values(|r: StoredRef| r@);
    let mut i: usize = 0;
    while i < stored.len()
        invariant
            i <= stored@.len(),
            model == stored@.map_values(|r: StoredRef| r@),
            stored_refs_model(*field) == Field::<Seq<StoredRefModel>>::Ok(model),
            forall|j: int| 0 <= j < i ==> ref_parses(#[trigger] model[j]),
        decreases stored@.len() - i,
    {
        let parses = match &stored[i] {
            StoredRef::Path(bytes) => read_utf8(bytes.as_slice()).is_some(),
            StoredRef::Uuid(bytes) => bytes.len() == UUID_LEN,
            StoredRef::Unreadable(_) => false,
        };
        assert(parses == ref_parses(stored_refs_model(*field)->Ok_0[i as int]));
        if !parses {
            return false;
        }
        i += 1;
    }
    true
}

/// Whether each of a field's tags can be read.
fn check_tags(field: &Field<Vec<StoredTag>>) -> (res: bool)
    ensures
        res == tags_parse(stored_tags_model(*field)),
{
    let stored: &Vec<StoredTag> = match field {
        Ok(stored) => stored,
        Err(_) => {
            return false;
        },
    };
    let ghost model = stored@.map_values(|t: StoredTag| t@);
    let mut i: usize = 0;
    while i < stored.len()
        invariant
            i <= stored@.len(),
            model == stored@.map_values(|t: StoredTag| t@),
            stored_tags_model(*field) == Field::<Seq<StoredTagModel>>::Ok(model),
            forall|j: int| 0 <= j < i ==> tag_parses(#[trigger] model[j]),
        decreases stored@.len() - i,
    {
        let parses = check_text(&stored[i].key) && check_text(&stored[i].value);
        assert(parses == tag_parses(stored_tags_model(*field)->Ok_0[i as int]));
        if !parses {
            return false;
        }
        i += 1;
    }
    true
}

/// Whether every field that [`parse_db_metadata`] reads can be read, as it
/// requires.
pub fn can_parse_metadata(metadata: &StoredMetadata) -> (res: bool)
    ensures
        res == record_parses(metadata@),
{
    check_uuid(&metadata.id) && check_tags(&metadata.search_tags) && check_refs(
        &metadata.load_deps,
    ) && check_refs(&metadata.build_deps) && check_uuid(&metadata.asset_type)
        && metadata.build_pipeline.is_ok()
}

/// Reads asset metadata from a message.
pub fn parse_db_metadata(metadata: &StoredMetadata) -> (res: AssetMetadata)
    requires
        record_parses(metadata@),
    ensures
        res@ == parsed_record(metadata@),
{
    let search_tags = parse_tags(&metadata.search_tags);
    let load_deps = parse_refs(&metadata.load_deps);
    let build_deps = parse_refs(&metadata.build_deps);
    let asset_type = make_array(expect_bytes(&metadata.asset_type).as_slice());
    let build_pipeline = if expect_bytes(&metadata.build_pipeline).len() > 0 {
        Some(AssetUuid(make_array(expect_bytes(&metadata.asset_type).as_slice())))
    } else {
        None
    };
    AssetMetadata {
        id: AssetUuid(make_array(expect_bytes(&metadata.id).as_slice())),
        search_tags,
        build_deps,
        load_deps,
        build_pipeline,
        asset_type: AssetTypeId(asset_type),
    }
}

}
