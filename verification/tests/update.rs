use asset_hub::asset::{AssetMetadata, AssetRef, AssetSource, AssetTypeId, AssetUuid};
use asset_hub::change::{ChangeBatch, ChangeEvent, LoggedEvent};
use asset_hub::hub::AssetHub;
use asset_hub::index::{read_uuid_list, swap_remove_uuid, uuid_from_slice, write_uuid_list};
use asset_hub::message::{
    Error, LatestArtifact, Message, ReadError, StoredMetadata, StoredRef, UuidList,
};
use asset_hub::record::add_asset_changelog_entry;
use asset_hub::transaction::RwTransaction;
use asset_hub::walk::Progress;

fn uuid(n: u8) -> AssetUuid {
    AssetUuid([n; 16])
}

fn named(n: u8) -> AssetRef {
    AssetRef::Uuid(uuid(n))
}

fn meta(id: u8, deps: &[u8]) -> AssetMetadata {
    AssetMetadata {
        id: uuid(id),
        search_tags: vec![],
        build_deps: deps.iter().map(|d| named(*d)).collect(),
        load_deps: vec![],
        build_pipeline: None,
        asset_type: AssetTypeId([0; 16]),
    }
}

fn import(txn: &mut RwTransaction, hash: u64, id: u8, deps: &[u8], batch: &mut ChangeBatch) {
    let hub = AssetHub::new();
    let metadata = meta(id, deps);
    assert!(hub.can_update(txn, &metadata));
    assert_eq!(
        hub.update_asset(txn, hash, &metadata, AssetSource(0), batch),
        Ok(())
    );
}

fn remove(txn: &mut RwTransaction, id: u8, batch: &mut ChangeBatch) {
    let hub = AssetHub::new();
    assert!(hub.can_remove(txn, &uuid(id)));
    assert_eq!(hub.remove_asset(txn, &uuid(id), batch), Ok(()));
}

/// The first byte of each dependee of an asset, or nothing if it has no list.
fn dependees(txn: &RwTransaction, id: u8) -> Option<Vec<u8>> {
    AssetHub::new()
        .get_build_deps_reverse(txn, &uuid(id))
        .map(|m| read_uuid_list(m).unwrap().iter().map(|u| u.0[0]).collect())
}

/// How many events a batch leads to.
fn count_events(txn: &mut RwTransaction, batch: ChangeBatch) -> usize {
    let before = txn.changes().len();
    let hub = AssetHub::new();
    assert!(matches!(
        hub.add_changes_within(txn, batch, 1000),
        Progress::Done(_)
    ));
    txn.changes().len() - before
}

fn put_list(txn: &mut RwTransaction, id: u8, list: Vec<Vec<u8>>) {
    let items = list.into_iter().map(Ok).collect();
    txn.put_dependees(uuid(id), Message::new(UuidList { list: Ok(items) }));
}

#[test]
fn an_import_links_the_asset_to_its_build_deps() {
    let mut txn = RwTransaction::new();
    let mut batch = ChangeBatch::new();
    import(&mut txn, 1, 1, &[2, 3], &mut batch);
    import(&mut txn, 1, 4, &[3], &mut batch);
    assert_eq!(dependees(&txn, 2), Some(vec![1]));
    assert_eq!(dependees(&txn, 3), Some(vec![1, 4]));
    assert_eq!(dependees(&txn, 1), None);
}

#[test]
fn a_reimport_relinks_only_what_differs() {
    let mut txn = RwTransaction::new();
    let mut batch = ChangeBatch::new();
    import(&mut txn, 1, 1, &[2, 3], &mut batch);
    import(&mut txn, 1, 5, &[3], &mut batch);
    import(&mut txn, 2, 1, &[3, 4], &mut batch);
    assert_eq!(dependees(&txn, 2), None);
    assert_eq!(dependees(&txn, 3), Some(vec![1, 5]));
    assert_eq!(dependees(&txn, 4), Some(vec![1]));
}

#[test]
fn the_last_import_is_what_is_read() {
    let mut txn = RwTransaction::new();
    let mut batch = ChangeBatch::new();
    import(&mut txn, 1, 1, &[2], &mut batch);
    import(&mut txn, 0x0102_0304_0506_0708, 1, &[3], &mut batch);
    let hub = AssetHub::new();
    let m = hub.get_metadata(&txn, &uuid(1)).unwrap().get().unwrap();
    assert!(matches!(
        &m.latest_artifact,
        Ok(LatestArtifact::Id(Ok(hash))) if hash == &vec![8, 7, 6, 5, 4, 3, 2, 1]
    ));
    let deps = m.build_deps.as_ref().unwrap();
    assert!(matches!(&deps[0], StoredRef::Uuid(b) if b == &vec![3; 16]));
    assert!(hub.get_metadata(&txn, &uuid(2)).is_none());
}

#[test]
fn an_import_of_the_same_artifact_is_not_noted() {
    let mut txn = RwTransaction::new();
    let mut batch = ChangeBatch::new();
    import(&mut txn, 7, 1, &[2], &mut batch);
    assert_eq!(count_events(&mut txn, batch), 1);
    let mut batch = ChangeBatch::new();
    import(&mut txn, 7, 1, &[2], &mut batch);
    assert_eq!(dependees(&txn, 2), Some(vec![1]));
    assert_eq!(count_events(&mut txn, batch), 0);
    let mut batch = ChangeBatch::new();
    import(&mut txn, 8, 1, &[2], &mut batch);
    assert_eq!(count_events(&mut txn, batch), 1);
}

#[test]
fn a_removal_undoes_an_import() {
    let mut txn = RwTransaction::new();
    let mut batch = ChangeBatch::new();
    import(&mut txn, 1, 1, &[2, 3], &mut batch);
    let before = format!("{:?}", txn);
    import(&mut txn, 1, 4, &[3, 2, 3, 5], &mut batch);
    assert_eq!(dependees(&txn, 3), Some(vec![1, 4, 4]));
    remove(&mut txn, 4, &mut batch);
    assert_eq!(format!("{:?}", txn), before);
}

#[test]
fn a_removal_unlinks_the_asset() {
    let mut txn = RwTransaction::new();
    let mut batch = ChangeBatch::new();
    import(&mut txn, 1, 1, &[9], &mut batch);
    import(&mut txn, 1, 2, &[9], &mut batch);
    import(&mut txn, 1, 3, &[9], &mut batch);
    remove(&mut txn, 1, &mut batch);
    assert_eq!(dependees(&txn, 9), Some(vec![3, 2]));
    remove(&mut txn, 3, &mut batch);
    remove(&mut txn, 2, &mut batch);
    assert_eq!(dependees(&txn, 9), None);
}

#[test]
fn removing_an_unknown_asset_changes_nothing() {
    let mut txn = RwTransaction::new();
    let mut batch = ChangeBatch::new();
    import(&mut txn, 1, 1, &[2], &mut batch);
    let before = format!("{:?}", txn);
    let mut batch = ChangeBatch::new();
    remove(&mut txn, 5, &mut batch);
    assert_eq!(format!("{:?}", txn), before);
    assert_eq!(count_events(&mut txn, batch), 0);
}

#[test]
fn the_rest_of_the_tables_is_left_alone() {
    let hub = AssetHub::new();
    let mut txn = RwTransaction::new();
    let mut batch = ChangeBatch::new();
    import(&mut txn, 1, 1, &[8], &mut batch);
    add_asset_changelog_entry(&hub, &mut txn, &ChangeEvent::Remove(uuid(6)));
    let record = format!("{:?}", hub.get_metadata(&txn, &uuid(1)));
    import(&mut txn, 1, 2, &[9], &mut batch);
    assert_eq!(format!("{:?}", hub.get_metadata(&txn, &uuid(1))), record);
    assert_eq!(dependees(&txn, 8), Some(vec![1]));
    remove(&mut txn, 2, &mut batch);
    assert_eq!(format!("{:?}", hub.get_metadata(&txn, &uuid(1))), record);
    assert_eq!(dependees(&txn, 8), Some(vec![1]));
    assert_eq!(hub.get_latest_asset_change(&txn), 1);
}

#[test]
fn a_removal_takes_every_entry_out() {
    let mut txn = RwTransaction::new();
    let mut batch = ChangeBatch::new();
    import(&mut txn, 1, 1, &[2, 2], &mut batch);
    assert_eq!(dependees(&txn, 2), Some(vec![1, 1]));
    import(&mut txn, 1, 1, &[2], &mut batch);
    remove(&mut txn, 1, &mut batch);
    assert_eq!(dependees(&txn, 2), None);
    let mut batch = ChangeBatch::new();
    import(&mut txn, 1, 2, &[], &mut batch);
    assert_eq!(count_events(&mut txn, batch), 1);
}

#[test]
fn a_dependency_that_is_dropped_loses_every_entry() {
    let mut txn = RwTransaction::new();
    let mut batch = ChangeBatch::new();
    import(&mut txn, 1, 3, &[2], &mut batch);
    import(&mut txn, 1, 1, &[2, 2, 2], &mut batch);
    import(&mut txn, 1, 4, &[2], &mut batch);
    import(&mut txn, 2, 1, &[2, 5], &mut batch);
    assert_eq!(dependees(&txn, 2), Some(vec![3, 1, 1, 1, 4]));
    import(&mut txn, 3, 1, &[5], &mut batch);
    assert_eq!(dependees(&txn, 2), Some(vec![3, 4]));
    assert_eq!(dependees(&txn, 5), Some(vec![1]));
}

#[test]
fn a_damaged_record_stops_an_import() {
    let hub = AssetHub::new();
    let mut txn = RwTransaction::new();
    let mut batch = ChangeBatch::new();
    txn.put_metadata(uuid(1), Message { root: Err(ReadError::Malformed) });
    let metadata = meta(1, &[2]);
    assert!(hub.can_update(&txn, &metadata));
    assert_eq!(
        hub.update_asset(&mut txn, 1, &metadata, AssetSource(0), &mut batch),
        Err(Error::Read(ReadError::Malformed))
    );
    assert!(hub.can_remove(&txn, &uuid(1)));
    assert_eq!(
        hub.remove_asset(&mut txn, &uuid(1), &mut batch),
        Err(Error::Read(ReadError::Malformed))
    );
    assert!(hub.get_metadata(&txn, &uuid(1)).is_some());

    let mut stored = StoredMetadata::new();
    stored.latest_artifact = Err(ReadError::NotInSchema(4));
    txn.put_metadata(uuid(1), Message::new(stored));
    assert!(hub.can_update(&txn, &metadata));
    assert_eq!(
        hub.update_asset(&mut txn, 1, &metadata, AssetSource(0), &mut batch),
        Err(Error::Read(ReadError::NotInSchema(4)))
    );

    let mut stored = StoredMetadata::new();
    stored.latest_artifact = Ok(LatestArtifact::Id(Err(ReadError::Malformed)));
    txn.put_metadata(uuid(1), Message::new(stored));
    assert!(hub.can_update(&txn, &metadata));
    assert_eq!(
        hub.update_asset(&mut txn, 1, &metadata, AssetSource(0), &mut batch),
        Err(Error::Read(ReadError::Malformed))
    );

    let mut stored = StoredMetadata::new();
    stored.build_deps = Err(ReadError::Malformed);
    txn.put_metadata(uuid(1), Message::new(stored));
    assert!(hub.can_update(&txn, &metadata));
    assert_eq!(
        hub.update_asset(&mut txn, 1, &metadata, AssetSource(0), &mut batch),
        Err(Error::Read(ReadError::Malformed))
    );
    assert_eq!(dependees(&txn, 2), None);
    assert_eq!(count_events(&mut txn, batch), 0);
}

#[test]
fn a_damaged_list_stops_an_import_after_the_links_before_it() {
    let hub = AssetHub::new();
    let mut txn = RwTransaction::new();
    let mut batch = ChangeBatch::new();
    put_list(&mut txn, 3, vec![vec![1; 15]]);
    let metadata = meta(1, &[2, 3, 4]);
    assert!(hub.can_update(&txn, &metadata));
    assert_eq!(
        hub.update_asset(&mut txn, 1, &metadata, AssetSource(0), &mut batch),
        Err(Error::UuidLength)
    );
    assert_eq!(dependees(&txn, 2), Some(vec![1]));
    assert_eq!(dependees(&txn, 4), None);
    assert!(hub.get_metadata(&txn, &uuid(1)).is_none());
    assert_eq!(count_events(&mut txn, batch), 0);
}

#[test]
fn a_damaged_list_stops_a_removal_after_the_record_is_gone() {
    let hub = AssetHub::new();
    let mut txn = RwTransaction::new();
    let mut batch = ChangeBatch::new();
    import(&mut txn, 1, 1, &[2, 3], &mut batch);
    txn.put_dependees(uuid(2), Message { root: Err(ReadError::Malformed) });
    assert!(hub.can_remove(&txn, &uuid(1)));
    assert_eq!(
        hub.remove_asset(&mut txn, &uuid(1), &mut batch),
        Err(Error::Read(ReadError::Malformed))
    );
    assert!(hub.get_metadata(&txn, &uuid(1)).is_none());
    assert_eq!(dependees(&txn, 3), Some(vec![1]));
}

#[test]
fn paths_among_build_deps_are_told_apart() {
    let hub = AssetHub::new();
    let mut txn = RwTransaction::new();
    let mut batch = ChangeBatch::new();
    let mut metadata = meta(1, &[2]);
    metadata.build_deps.push(AssetRef::Path(String::from("p")));
    assert!(!hub.can_update(&txn, &metadata));
    put_list(&mut txn, 2, vec![vec![0; 3]]);
    assert!(hub.can_update(&txn, &metadata));
    assert_eq!(
        hub.update_asset(&mut txn, 1, &metadata, AssetSource(0), &mut batch),
        Err(Error::UuidLength)
    );
    let mut stored = StoredMetadata::new();
    stored.build_deps = Ok(vec![StoredRef::Path(vec![b'p'])]);
    txn.put_metadata(uuid(4), Message::new(stored));
    assert!(!hub.can_update(&txn, &meta(4, &[])));
    assert!(!hub.can_remove(&txn, &uuid(4)));
    assert!(hub.can_remove(&txn, &uuid(5)));
}

#[test]
fn lists_of_names_are_read_back() {
    let names = vec![uuid(1), uuid(2), uuid(1)];
    assert_eq!(read_uuid_list(&write_uuid_list(&names)), Ok(names));
    assert_eq!(read_uuid_list(&write_uuid_list(&vec![])), Ok(vec![]));
}

#[test]
fn damaged_lists_say_why() {
    let list = |list| Message::new(UuidList { list });
    assert_eq!(
        read_uuid_list(&list(Err(ReadError::NotInSchema(1)))),
        Err(Error::Read(ReadError::NotInSchema(1)))
    );
    assert_eq!(
        read_uuid_list(&list(Ok(vec![Ok(vec![0; 16]), Err(ReadError::Malformed), Ok(vec![])]))),
        Err(Error::Read(ReadError::Malformed))
    );
    assert_eq!(
        read_uuid_list(&list(Ok(vec![Ok(vec![]), Err(ReadError::Malformed)]))),
        Err(Error::UuidLength)
    );
    assert_eq!(uuid_from_slice(&[1; 17]), Err(Error::UuidLength));
    assert_eq!(uuid_from_slice(&[1; 16]), Ok(uuid(1)));
}

#[test]
fn the_last_name_takes_the_place_of_what_is_taken_out() {
    let mut names = vec![uuid(1), uuid(2), uuid(3), uuid(4)];
    swap_remove_uuid(&mut names, &uuid(2));
    assert_eq!(names, vec![uuid(1), uuid(4), uuid(3)]);
    swap_remove_uuid(&mut names, &uuid(7));
    assert_eq!(names, vec![uuid(1), uuid(4), uuid(3)]);
    let mut names = vec![uuid(2), uuid(1), uuid(2), uuid(3), uuid(2)];
    swap_remove_uuid(&mut names, &uuid(2));
    assert_eq!(names, vec![uuid(3), uuid(1)]);
    swap_remove_uuid(&mut names, &uuid(1));
    swap_remove_uuid(&mut names, &uuid(3));
    assert_eq!(names, vec![]);
}

#[test]
fn batches_are_put_together_in_order() {
    let mut txn = RwTransaction::new();
    let mut first = ChangeBatch::new();
    let mut second = ChangeBatch::new();
    import(&mut txn, 1, 1, &[], &mut second);
    import(&mut txn, 1, 2, &[], &mut first);
    import(&mut txn, 1, 3, &[], &mut first);
    assert_eq!((first.len(), second.len()), (2, 1));
    first.append(second);
    assert_eq!(first.len(), 3);
    assert_eq!(count_events(&mut txn, first), 3);
    assert!(matches!(
        &txn.changes()[2].entry.get().unwrap().event,
        LoggedEvent::ContentUpdate { id, .. } if id == &vec![1; 16]
    ));
}

#[test]
fn metadata_is_listed_in_the_order_of_the_names() {
    let mut txn = RwTransaction::new();
    let mut batch = ChangeBatch::new();
    for id in [5, 1, 200, 9] {
        import(&mut txn, 1, id, &[], &mut batch);
    }
    remove(&mut txn, 9, &mut batch);
    let ids: Vec<u8> = AssetHub::new()
        .get_metadata_iter(&txn)
        .iter()
        .map(|(id, _)| id.0[0])
        .collect();
    assert_eq!(ids, vec![1, 5, 200]);
}

/// Whether the index lists an asset just where its record names a dependency.
fn is_in_step(txn: &RwTransaction, assets: u8) -> bool {
    let hub = AssetHub::new();
    (0..assets).all(|a| {
        (0..assets).all(|d| {
            let listed = dependees(txn, d).unwrap_or_default().contains(&a);
            let named = match hub.get_metadata(txn, &uuid(a)) {
                Some(m) => m.get().unwrap().build_deps.as_ref().unwrap().iter().any(
                    |r| matches!(r, StoredRef::Uuid(b) if b == &vec![d; 16]),
                ),
                None => false,
            };
            listed == named
        })
    })
}

#[test]
fn the_index_stays_in_step_with_the_records() {
    let mut txn = RwTransaction::new();
    let mut batch = ChangeBatch::new();
    assert!(is_in_step(&txn, 8));
    let steps: [(u8, &[u8]); 9] = [
        (1, &[2, 3]),
        (2, &[3, 3, 4]),
        (5, &[1, 2, 3, 4]),
        (1, &[4, 7]),
        (2, &[3, 3]),
        (5, &[]),
        (6, &[6, 1]),
        (1, &[3]),
        (2, &[3]),
    ];
    for (asset, deps) in steps {
        import(&mut txn, 1, asset, deps, &mut batch);
        assert!(is_in_step(&txn, 8));
    }
    for asset in [2, 6, 5, 1, 0] {
        remove(&mut txn, asset, &mut batch);
        assert!(is_in_step(&txn, 8));
    }
    assert_eq!(format!("{:?}", txn), format!("{:?}", RwTransaction::new()));
    assert!(count_events(&mut txn, batch) > 0);
    assert!(is_in_step(&txn, 8));
}

#[test]
fn an_update_rests_on_the_record_and_the_lists_it_touches() {
    let mut whole = RwTransaction::new();
    let mut part = RwTransaction::new();
    let mut batch = ChangeBatch::new();
    import(&mut whole, 1, 7, &[8], &mut batch);
    import(&mut whole, 1, 1, &[2, 3], &mut batch);
    import(&mut part, 1, 1, &[2, 3], &mut batch);
    for txn in [&mut whole, &mut part] {
        import(txn, 2, 1, &[3, 4], &mut batch);
        assert_eq!(dependees(txn, 2), None);
        assert_eq!(dependees(txn, 3), Some(vec![1]));
        assert_eq!(dependees(txn, 4), Some(vec![1]));
        remove(txn, 1, &mut batch);
        assert_eq!(dependees(txn, 3), None);
        assert_eq!(dependees(txn, 4), None);
    }
    assert_eq!(dependees(&whole, 8), Some(vec![7]));
}
