use asset_hub::asset::{make_array, AssetMetadata, AssetRef, AssetSource, AssetTypeId, AssetUuid};
use asset_hub::message::{
    LatestArtifact, Message, ReadError, StoredMetadata, StoredRef, StoredTag,
};
use asset_hub::metadata::{
    build_asset_metadata, build_asset_metadata_message, can_parse_metadata, parse_db_asset_ref,
    parse_db_metadata, set_assetref_list,
};

fn uuid(n: u8) -> AssetUuid {
    AssetUuid([n; 16])
}

fn sample() -> AssetMetadata {
    AssetMetadata {
        id: uuid(1),
        search_tags: vec![
            (String::from("name"), Some(String::from("\u{e9}t\u{e9}"))),
            (String::from("bare"), None),
        ],
        build_deps: vec![AssetRef::Uuid(uuid(2))],
        load_deps: vec![
            AssetRef::Path(String::from("a/b.png")),
            AssetRef::Uuid(uuid(3)),
        ],
        build_pipeline: Some(AssetUuid([9; 16])),
        asset_type: AssetTypeId([9; 16]),
    }
}

fn bytes(field: &Result<Vec<u8>, ReadError>) -> &[u8] {
    field.as_ref().unwrap().as_slice()
}

#[test]
fn metadata_is_written_field_by_field() {
    let message = build_asset_metadata_message(&sample(), Some(&[5, 6]), AssetSource(1));
    let m = message.get().unwrap();
    assert_eq!(bytes(&m.id), &[1; 16]);
    assert_eq!(bytes(&m.build_pipeline), &[9; 16]);
    assert_eq!(bytes(&m.asset_type), &[9; 16]);
    assert_eq!(m.source, AssetSource(1));
    let tags = m.search_tags.as_ref().unwrap();
    assert_eq!(tags.len(), 2);
    assert_eq!(bytes(&tags[0].key), b"name");
    assert_eq!(bytes(&tags[0].value), &[0xc3, 0xa9, b't', 0xc3, 0xa9]);
    assert_eq!(bytes(&tags[1].key), b"bare");
    assert_eq!(bytes(&tags[1].value), b"");
    let build_deps = m.build_deps.as_ref().unwrap();
    assert_eq!(build_deps.len(), 1);
    assert!(matches!(&build_deps[0], StoredRef::Uuid(b) if b == &vec![2; 16]));
    let load_deps = m.load_deps.as_ref().unwrap();
    assert_eq!(load_deps.len(), 2);
    assert!(matches!(&load_deps[0], StoredRef::Path(b) if b.as_slice() == b"a/b.png"));
    assert!(matches!(&load_deps[1], StoredRef::Uuid(b) if b == &vec![3; 16]));
    assert!(matches!(
        &m.latest_artifact,
        Ok(LatestArtifact::Id(Ok(hash))) if hash == &vec![5, 6]
    ));
}

#[test]
fn missing_parts_are_left_as_they_were() {
    let mut m = StoredMetadata::new();
    let mut metadata = sample();
    build_asset_metadata(&metadata, &mut m, Some(&[7]), AssetSource(0));
    metadata.build_pipeline = None;
    metadata.search_tags = vec![];
    build_asset_metadata(&metadata, &mut m, None, AssetSource(2));
    assert_eq!(bytes(&m.build_pipeline), &[9; 16]);
    assert!(matches!(&m.latest_artifact, Ok(LatestArtifact::Id(Ok(hash))) if hash == &vec![7]));
    assert_eq!(m.search_tags.as_ref().unwrap().len(), 0);
    assert_eq!(m.source, AssetSource(2));
}

#[test]
fn a_new_message_is_blank() {
    let m = StoredMetadata::new();
    assert_eq!(bytes(&m.id), b"");
    assert_eq!(bytes(&m.asset_type), b"");
    assert_eq!(bytes(&m.build_pipeline), b"");
    assert!(matches!(&m.latest_artifact, Ok(LatestArtifact::Unnamed)));
    assert_eq!(m.source, AssetSource(0));
    assert!(!can_parse_metadata(&m));
}

#[test]
fn metadata_reads_back() {
    let message = build_asset_metadata_message(&sample(), None, AssetSource(0));
    let m = message.get().unwrap();
    assert!(can_parse_metadata(m));
    let read = parse_db_metadata(m);
    assert_eq!(format!("{:?}", read), format!("{:?}", sample()));
}

#[test]
fn an_empty_tag_value_reads_back_as_none() {
    let mut metadata = sample();
    metadata.search_tags = vec![(String::from("k"), Some(String::new()))];
    let message = build_asset_metadata_message(&metadata, None, AssetSource(0));
    let read = parse_db_metadata(message.get().unwrap());
    assert_eq!(read.search_tags, vec![(String::from("k"), None)]);
}

#[test]
fn a_pipeline_reads_back_with_the_bytes_of_the_type() {
    let mut metadata = sample();
    metadata.build_pipeline = Some(uuid(4));
    let message = build_asset_metadata_message(&metadata, None, AssetSource(0));
    let read = parse_db_metadata(message.get().unwrap());
    assert_eq!(read.build_pipeline, Some(uuid(9)));

    metadata.build_pipeline = None;
    let message = build_asset_metadata_message(&metadata, None, AssetSource(0));
    let read = parse_db_metadata(message.get().unwrap());
    assert_eq!(read.build_pipeline, None);
}

#[test]
fn references_are_parsed() {
    let path = parse_db_asset_ref(&StoredRef::Path(vec![0xe2, 0x82, 0xac]));
    assert!(matches!(path, AssetRef::Path(p) if p == "\u{20ac}"));
    let named = parse_db_asset_ref(&StoredRef::Uuid(vec![8; 16]));
    assert_eq!(*named.expect_uuid(), uuid(8));
}

#[test]
fn damaged_metadata_is_told_apart() {
    let written = || {
        let message = build_asset_metadata_message(&sample(), None, AssetSource(0));
        message.root.unwrap()
    };
    assert!(can_parse_metadata(&written()));

    let mut m = written();
    m.id = Ok(vec![1; 15]);
    assert!(!can_parse_metadata(&m));
    let mut m = written();
    m.asset_type = Err(ReadError::Malformed);
    assert!(!can_parse_metadata(&m));
    let mut m = written();
    m.build_pipeline = Err(ReadError::Malformed);
    assert!(!can_parse_metadata(&m));
    let mut m = written();
    m.load_deps = Ok(vec![StoredRef::Path(vec![0xff])]);
    assert!(!can_parse_metadata(&m));
    let mut m = written();
    m.build_deps = Ok(vec![StoredRef::Unreadable(ReadError::NotInSchema(7))]);
    assert!(!can_parse_metadata(&m));
    let mut m = written();
    m.search_tags = Ok(vec![StoredTag {
        key: Ok(vec![b'k']),
        value: Ok(vec![0xc3]),
    }]);
    assert!(!can_parse_metadata(&m));
}

#[test]
fn sixteen_bytes_make_an_array() {
    let bytes: Vec<u8> = (0..16).collect();
    assert_eq!(
        make_array(&bytes),
        [0, 1, 2, 3, 4, 5, 6, 7, 8, 9, 10, 11, 12, 13, 14, 15]
    );
}

#[test]
fn messages_open_or_say_why_not() {
    let good: Message<StoredMetadata> = Message::new(StoredMetadata::new());
    assert!(good.get().is_ok());
    let bad: Message<StoredMetadata> = Message {
        root: Err(ReadError::NotInSchema(3)),
    };
    assert_eq!(bad.get().err(), Some(ReadError::NotInSchema(3)));
}

#[test]
fn references_are_written_into_the_first_places() {
    let mut list = vec![
        StoredRef::Uuid(vec![]),
        StoredRef::Unreadable(ReadError::Malformed),
        StoredRef::Path(vec![b'z']),
    ];
    let refs = vec![AssetRef::Path(String::from("a")), AssetRef::Uuid(uuid(6))];
    set_assetref_list(&refs, &mut list);
    assert_eq!(list.len(), 3);
    assert!(matches!(parse_db_asset_ref(&list[0]), AssetRef::Path(p) if p == "a"));
    assert!(matches!(parse_db_asset_ref(&list[1]), AssetRef::Uuid(u) if u == uuid(6)));
    assert!(matches!(&list[2], StoredRef::Path(b) if b == &vec![b'z']));
}
