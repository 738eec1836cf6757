//! The messages that the tables hold.
//!
//! A message is read field by field, and any field of a damaged message may
//! turn out to be unreadable when it is asked for. A field that was never
//! written reads as empty.
use vstd::prelude::*;

use crate::asset::AssetSource;

verus! {

/// Why a part of a message could not be read.
#[derive(Clone, Copy, PartialEq, Eq, Debug, Structural)]
pub enum ReadError {
    /// The bytes are not a message of the expected shape.
    Malformed,
    /// A union holds a variant, by its ordinal, that the schema does not name.
    NotInSchema(u16),
}

/// Why an operation on the tables failed.
#[derive(Clone, Copy, PartialEq, Eq, Debug, Structural)]
pub enum Error {
    /// A part of a stored message could not be read.
    Read(ReadError),
    /// A stored name is not sixteen bytes long.
    UuidLength,
}

/// What reading one field of a message gives.
pub type Field<T> = Result<T, ReadError>;

/// A stored message: what it holds, or why it could not be opened.
#[derive(Debug)]
pub struct Message<T> {
    pub root: Field<T>,
}

impl<T: View> View for Message<T> {
    type V = Field<T::V>;

    open spec fn view(&self) -> Field<T::V> {
        match self.root {
            Ok(value) => Ok(value@),
            Err(e) => Err(e),
        }
    }
}

impl<T: View> Message<T> {
    /// A message that holds `value`.
    pub fn new(value: T) -> (message: Self)
        ensures
            message@ == Field::<T::V>::Ok(value@),
    {
        Message { root: Ok(value) }
    }

    /// Opens the message.
    pub fn get(&self) -> (res: Result<&T, ReadError>)
        ensures
            self@ == (match res {
                Ok(value) => Field::<T::V>::Ok(value@),
                Err(e) => Err(e),
            }),
    {
        match &self.root {
            Ok(value) => Ok(value),
            Err(e) => Err(*e),
        }
    }
}

/// The model of a field of bytes.
pub open spec fn bytes_model(field: Field<Vec<u8>>) -> Field<Seq<u8>> {
    match field {
        Ok(bytes) => Ok(bytes@),
        Err(e) => Err(e),
    }
}

/// A stored reference to an asset.
#[derive(Debug)]
pub enum StoredRef {
    Path(Vec<u8>),
    Uuid(Vec<u8>),
    Unreadable(ReadError),
}

/// What a [`StoredRef`] stands for.
pub enum StoredRefModel {
    Path(Seq<u8>),
    Uuid(Seq<u8>),
    Unreadable(ReadError),
}

impl View for StoredRef {
    type V = StoredRefModel;

    open spec fn view(&self) -> StoredRefModel {
        match *self {
            StoredRef::Path(bytes) => StoredRefModel::Path(bytes@),
            StoredRef::Uuid(bytes) => StoredRefModel::Uuid(bytes@),
            StoredRef::Unreadable(e) => StoredRefModel::Unreadable(e),
        }
    }
}

/// The model of a field that holds references.
pub open spec fn stored_refs_model(field: Field<Vec<StoredRef>>) -> Field<Seq<StoredRefModel>> {
    match field {
        Ok(refs) => Ok(refs@.map_values(|r: StoredRef| r@)),
        Err(e) => Err(e),
    }
}

/// A stored search tag. A tag without a value has an empty one.
#[derive(Debug)]
pub struct StoredTag {
    pub key: Field<Vec<u8>>,
    pub value: Field<Vec<u8>>,
}

/// What a [`StoredTag`] stands for.
pub struct StoredTagModel {
    pub key: Field<Seq<u8>>,
    pub value: Field<Seq<u8>>,
}

impl View for StoredTag {
    type V = StoredTagModel;

    open spec fn view(&self) -> StoredTagModel {
        StoredTagModel { key: bytes_model(self.key), value: bytes_model(self.value) }
    }
}

/// The model of a field that holds search tags.
pub open spec fn stored_tags_model(field: Field<Vec<StoredTag>>) -> Field<Seq<StoredTagModel>> {
    match field {
        Ok(tags) => Ok(tags@.map_values(|t: StoredTag| t@)),
        Err(e) => Err(e),
    }
}

/// What a message says of the artifact that was last imported for an asset.
#[derive(Debug)]
pub enum LatestArtifact {
    /// It names no artifact, or the name itself cannot be opened.
    Unnamed,
    /// It names an artifact by this hash.
    Id(Field<Vec<u8>>),
}

/// What a [`LatestArtifact`] stands for.
pub enum ArtifactModel {
    Unnamed,
    Id(Field<Seq<u8>>),
}

impl View for LatestArtifact {
    type V = ArtifactModel;

    open spec fn view(&self) -> ArtifactModel {
        match *self {
            LatestArtifact::Unnamed => ArtifactModel::Unnamed,
            LatestArtifact::Id(hash) => ArtifactModel::Id(bytes_model(hash)),
        }
    }
}

/// The model of a field that holds the last artifact.
pub open spec fn artifact_model(field: Field<LatestArtifact>) -> Field<ArtifactModel> {
    match field {
        Ok(artifact) => Ok(artifact@),
        Err(e) => Err(e),
    }
}

/// Asset metadata as it is stored.
#[derive(Debug)]
pub struct StoredMetadata {
    pub id: Field<Vec<u8>>,
    pub search_tags: Field<Vec<StoredTag>>,
    pub build_deps: Field<Vec<StoredRef>>,
    pub load_deps: Field<Vec<StoredRef>>,
    pub build_pipeline: Field<Vec<u8>>,
    pub asset_type: Field<Vec<u8>>,
    pub latest_artifact: Field<LatestArtifact>,
    pub source: AssetSource,
}

/// What a [`StoredMetadata`] stands for.
#[verifier::ext_equal]
pub struct RecordModel {
    pub id: Field<Seq<u8>>,
    pub search_tags: Field<Seq<StoredTagModel>>,
    pub build_deps: Field<Seq<StoredRefModel>>,
    pub load_deps: Field<Seq<StoredRefModel>>,
    pub build_pipeline: Field<Seq<u8>>,
    pub asset_type: Field<Seq<u8>>,
    pub latest_artifact: Field<ArtifactModel>,
    pub source: AssetSource,
}

impl View for StoredMetadata {
    type V = RecordModel;

    open spec fn view(&self) -> RecordModel {
        RecordModel {
            id: bytes_model(self.id),
            search_tags: stored_tags_model(self.search_tags),
            build_deps: stored_refs_model(self.build_deps),
            load_deps: stored_refs_model(self.load_deps),
            build_pipeline: bytes_model(self.build_pipeline),
            asset_type: bytes_model(self.asset_type),
            latest_artifact: artifact_model(self.latest_artifact),
            source: self.source,
        }
    }
}

impl StoredMetadata {
    /// A message with no field written.
    pub fn new() -> (m: Self)
        ensures
            m@ == blank_record(),
    {
        let m = StoredMetadata {
            id: Ok(Vec::new()),
            search_tags: Ok(Vec::new()),
            build_deps: Ok(Vec::new()),
            load_deps: Ok(Vec::new()),
            build_pipeline: Ok(Vec::new()),
            asset_type: Ok(Vec::new()),
            latest_artifact: Ok(LatestArtifact::Unnamed),
            source: AssetSource(0),
        };
        assert(m@.search_tags->Ok_0 =~= Seq::<StoredTagModel>::empty());
        assert(m@.build_deps->Ok_0 =~= Seq::<StoredRefModel>::empty());
        assert(m@.load_deps->Ok_0 =~= Seq::<StoredRefModel>::empty());
        m
    }
}

/// A record with no field written.
pub open spec fn blank_record() -> RecordModel {
    RecordModel {
        id: Ok(Seq::empty()),
        search_tags: Ok(Seq::empty()),
        build_deps: Ok(Seq::empty()),
        load_deps: Ok(Seq::empty()),
        build_pipeline: Ok(Seq::empty()),
        asset_type: Ok(Seq::empty()),
        latest_artifact: Ok(ArtifactModel::Unnamed),
        source: AssetSource(0),
    }
}

/// A stored list of asset names.
#[derive(Debug)]
pub struct UuidList {
    pub list: Field<Vec<Field<Vec<u8>>>>,
}

/// What a [`UuidList`] stands for.
pub type UuidListModel = Field<Seq<Field<Seq<u8>>>>;

impl View for UuidList {
    type V = UuidListModel;

    open spec fn view(&self) -> UuidListModel {
        match self.list {
            Ok(items) => Ok(items@.map_values(|i: Field<Vec<u8>>| bytes_model(i))),
            Err(e) => Err(e),
        }
    }
}

}
