//! Assets, and what an importer reports about one.
use vstd::prelude::*;

verus! {

/// The bytes of an asset's name: what the tables are keyed by.
pub type Key = Seq<u8>;

/// The number of bytes in the name of an asset or of an asset type.
pub const UUID_LEN: usize = 16;

/// The sixteen bytes that name an asset.
#[derive(Clone, Copy, PartialEq, Eq, Hash, PartialOrd, Ord, Debug)]
pub struct AssetUuid(pub [u8; 16]);

impl View for AssetUuid {
    type V = Key;

    open spec fn view(&self) -> Key {
        self.0@
    }
}

impl AssetUuid {
    /// Whether two names are the same, byte for byte.
    pub fn same(&self, other: &AssetUuid) -> (res: bool)
        ensures
            res == (self@ == other@),
    {
        let mut i: usize = 0;
        while i < UUID_LEN
            invariant
                i <= UUID_LEN,
                forall|j: int| 0 <= j < i ==> self@[j] == other@[j],
            decreases UUID_LEN - i,
        {
            if self.0[i] != other.0[i] {
                return false;
            }
            i += 1;
        }
        assert(self@ =~= other@);
        true
    }
}

/// The sixteen bytes that name an asset type.
#[derive(Clone, Copy, PartialEq, Eq, Hash, PartialOrd, Ord, Debug)]
pub struct AssetTypeId(pub [u8; 16]);

impl View for AssetTypeId {
    type V = Seq<u8>;

    open spec fn view(&self) -> Seq<u8> {
        self.0@
    }
}

/// Where an asset came from: the ordinal of its variant in the schema.
#[derive(Clone, Copy, PartialEq, Eq, Debug, Structural)]
pub struct AssetSource(pub u16);

/// How one asset points at another: by name, or by the path of its source.
#[derive(Debug)]
pub enum AssetRef {
    Uuid(AssetUuid),
    Path(String),
}

/// What an [`AssetRef`] stands for.
pub enum RefModel {
    Uuid(Key),
    Path(Seq<char>),
}

impl View for AssetRef {
    type V = RefModel;

    open spec fn view(&self) -> RefModel {
        match *self {
            AssetRef::Uuid(uuid) => RefModel::Uuid(uuid@),
            AssetRef::Path(path) => RefModel::Path(path@),
        }
    }
}

impl AssetRef {
    /// The name that this reference holds.
    pub fn expect_uuid(&self) -> (uuid: &AssetUuid)
        requires
            self@ is Uuid,
        ensures
            self@ == RefModel::Uuid(uuid@),
    {
        match self {
            AssetRef::Uuid(uuid) => uuid,
            AssetRef::Path(_) => vstd::pervasive::unreached(),
        }
    }
}

/// The models of a list of references, in order.
pub open spec fn refs_model(refs: Seq<AssetRef>) -> Seq<RefModel> {
    refs.map_values(|r: AssetRef| r@)
}

/// A tag by which tools find an asset, and its value if it has one.
pub type SearchTag = (String, Option<String>);

/// What a [`SearchTag`] stands for.
pub type TagModel = (Seq<char>, Option<Seq<char>>);

/// The model of one tag.
pub open spec fn tag_model(tag: SearchTag) -> TagModel {
    (
        tag.0@,
        match tag.1 {
            Some(value) => Some(value@),
            None => None,
        },
    )
}

/// The models of a list of tags, in order.
pub open spec fn tags_model(tags: Seq<SearchTag>) -> Seq<TagModel> {
    tags.map_values(|t: SearchTag| tag_model(t))
}

/// What an importer reports about an asset.
#[derive(Debug)]
pub struct AssetMetadata {
    /// The asset that this is about.
    pub id: AssetUuid,
    /// Tags by which tools find the asset.
    pub search_tags: Vec<SearchTag>,
    /// Assets that the asset is built from.
    pub build_deps: Vec<AssetRef>,
    /// Assets that must be loaded before the asset.
    pub load_deps: Vec<AssetRef>,
    /// The pipeline that builds the asset, if it has one.
    pub build_pipeline: Option<AssetUuid>,
    /// The type of the asset.
    pub asset_type: AssetTypeId,
}

/// What an [`AssetMetadata`] stands for.
#[verifier::ext_equal]
pub struct MetadataModel {
    pub id: Key,
    pub search_tags: Seq<TagModel>,
    pub build_deps: Seq<RefModel>,
    pub load_deps: Seq<RefModel>,
    pub build_pipeline: Option<Key>,
    pub asset_type: Seq<u8>,
}

impl View for AssetMetadata {
    type V = MetadataModel;

    open spec fn view(&self) -> MetadataModel {
        MetadataModel {
            id: self.id@,
            search_tags: tags_model(self.search_tags@),
            build_deps: refs_model(self.build_deps@),
            load_deps: refs_model(self.load_deps@),
            build_pipeline: match self.build_pipeline {
                Some(pipeline) => Some(pipeline@),
                None => None,
            },
            asset_type: self.asset_type@,
        }
    }
}

/// Copies sixteen bytes out of a slice of that length.
pub fn make_array(slice: &[u8]) -> (array: [u8; 16])
    requires
        slice@.len() == UUID_LEN,
    ensures
        array@ == slice@,
{
    let mut array: [u8; 16] = [0u8; 16];
    let mut i: usize = 0;
    while i < UUID_LEN
        invariant
            i <= UUID_LEN,
            slice@.len() == UUID_LEN,
            forall|j: int| 0 <= j < i ==> array@[j] == slice@[j],
        decreases UUID_LEN - i,
    {
        array[i] = slice[i];
        i += 1;
    }
    assert(array@ =~= slice@);
    array
}

}
