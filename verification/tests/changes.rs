use std::collections::hash_map::DefaultHasher;
use std::hash::{Hash, Hasher};

use asset_hub::asset::{AssetMetadata, AssetRef, AssetSource, AssetTypeId, AssetUuid};
use asset_hub::change::{
    build_change_record, parse_sequence_key, AssetContentUpdateEvent, ChangeBatch, ChangeEvent,
    LoggedEvent,
};
use asset_hub::hub::AssetHub;
use asset_hub::message::{
    Error, LatestArtifact, Message, ReadError, StoredMetadata, StoredRef, UuidList,
};
use asset_hub::transaction::{RwTransaction, TableName};
use asset_hub::walk::{compute_digest, content_update, Progress};

fn id(n: u8) -> AssetUuid {
    AssetUuid([n; 16])
}

fn import(txn: &mut RwTransaction, hash: u64, asset: u8, deps: &[u8], batch: &mut ChangeBatch) {
    let hub = AssetHub::new();
    let metadata = AssetMetadata {
        id: id(asset),
        search_tags: vec![],
        build_deps: deps.iter().map(|d| AssetRef::Uuid(id(*d))).collect(),
        load_deps: vec![],
        build_pipeline: None,
        asset_type: AssetTypeId([0; 16]),
    };
    assert!(hub.can_update(txn, &metadata));
    assert_eq!(
        hub.update_asset(txn, hash, &metadata, AssetSource(0), batch),
        Ok(())
    );
}

fn remove(txn: &mut RwTransaction, asset: u8, batch: &mut ChangeBatch) {
    let hub = AssetHub::new();
    assert!(hub.can_remove(txn, &id(asset)));
    assert_eq!(hub.remove_asset(txn, &id(asset), batch), Ok(()));
}

/// The first byte of the name in each entry of the log, with a sign for removals.
fn log(txn: &RwTransaction) -> Vec<i32> {
    txn.changes()
        .iter()
        .map(|c| match &c.entry.get().unwrap().event {
            LoggedEvent::ContentUpdate { id, .. } => i32::from(id[0]),
            LoggedEvent::Remove { id } => -i32::from(id[0]),
        })
        .collect()
}

fn digest_of(hash: u64) -> Vec<u8> {
    let mut hasher = DefaultHasher::new();
    hash.to_le_bytes().to_vec().hash(&mut hasher);
    hasher.finish().to_le_bytes().to_vec()
}

fn record(txn: &mut RwTransaction, batch: ChangeBatch) -> bool {
    match AssetHub::new().add_changes_within(txn, batch, 1000) {
        Progress::Done(any) => any,
        other => panic!("{:?}", other),
    }
}

#[test]
fn an_empty_batch_records_nothing() {
    let mut txn = RwTransaction::new();
    let hub = AssetHub::new();
    assert_eq!(hub.add_changes(&mut txn, ChangeBatch::new()), Ok(false));
    assert_eq!(hub.get_asset_changes_iter(&txn).len(), 0);
    assert_eq!(hub.get_latest_asset_change(&txn), 0);
}

#[test]
fn an_import_is_logged_with_its_hashes() {
    let mut txn = RwTransaction::new();
    let mut batch = ChangeBatch::new();
    import(&mut txn, 0x0102, 1, &[], &mut batch);
    assert!(record(&mut txn, batch));
    let entry = txn.changes()[0].entry.get().unwrap();
    assert_eq!(entry.num, 1);
    match &entry.event {
        LoggedEvent::ContentUpdate {
            id,
            import_hash,
            build_dep_hash,
        } => {
            assert_eq!(id, &vec![1; 16]);
            assert_eq!(import_hash, &Some(vec![2, 1, 0, 0, 0, 0, 0, 0]));
            assert_eq!(build_dep_hash, &digest_of(0x0102));
        }
        LoggedEvent::Remove { .. } => panic!("removed"),
    }
}

#[test]
fn the_digest_is_of_the_hash_met_last() {
    let mut txn = RwTransaction::new();
    let mut batch = ChangeBatch::new();
    import(&mut txn, 20, 2, &[], &mut batch);
    import(&mut txn, 30, 3, &[4], &mut batch);
    import(&mut txn, 40, 4, &[], &mut batch);
    let mut batch = ChangeBatch::new();
    import(&mut txn, 10, 1, &[3, 2], &mut batch);
    assert!(record(&mut txn, batch));
    assert_eq!(log(&txn), vec![1]);
    match &txn.changes()[0].entry.get().unwrap().event {
        LoggedEvent::ContentUpdate {
            import_hash,
            build_dep_hash,
            ..
        } => {
            assert_eq!(import_hash, &Some(10u64.to_le_bytes().to_vec()));
            assert_eq!(build_dep_hash, &digest_of(40));
        }
        LoggedEvent::Remove { .. } => panic!("removed"),
    }
}

#[test]
fn digests_are_the_hashers() {
    assert_eq!(compute_digest(&Some(7u64.to_le_bytes().to_vec())), digest_of(7));
    assert_eq!(
        compute_digest(&None),
        DefaultHasher::new().finish().to_le_bytes().to_vec()
    );
    assert_ne!(compute_digest(&Some(vec![])), compute_digest(&None));
}

#[test]
fn a_change_reaches_everything_built_from_it_once() {
    let mut txn = RwTransaction::new();
    let mut batch = ChangeBatch::new();
    import(&mut txn, 1, 1, &[], &mut batch);
    import(&mut txn, 1, 2, &[1], &mut batch);
    import(&mut txn, 1, 3, &[1], &mut batch);
    import(&mut txn, 1, 4, &[2, 3], &mut batch);
    import(&mut txn, 1, 5, &[], &mut batch);
    let mut batch = ChangeBatch::new();
    import(&mut txn, 2, 1, &[], &mut batch);
    assert!(record(&mut txn, batch));
    assert_eq!(log(&txn), vec![1, 2, 3, 4]);
}

#[test]
fn a_removal_is_logged_and_reaches_dependees() {
    let mut txn = RwTransaction::new();
    let mut batch = ChangeBatch::new();
    import(&mut txn, 1, 1, &[], &mut batch);
    import(&mut txn, 1, 2, &[1], &mut batch);
    let mut batch = ChangeBatch::new();
    remove(&mut txn, 1, &mut batch);
    assert!(record(&mut txn, batch));
    assert_eq!(log(&txn), vec![-1, 2]);
}

#[test]
fn an_import_and_its_removal_come_to_one_event() {
    let mut txn = RwTransaction::new();
    let mut batch = ChangeBatch::new();
    import(&mut txn, 1, 1, &[], &mut batch);
    remove(&mut txn, 1, &mut batch);
    assert!(record(&mut txn, batch));
    assert_eq!(log(&txn), vec![-1]);
}

#[test]
fn numbers_go_on_from_the_last() {
    let hub = AssetHub::new();
    let mut txn = RwTransaction::new();
    for round in 1..4u64 {
        let mut batch = ChangeBatch::new();
        import(&mut txn, round, 1, &[], &mut batch);
        assert!(record(&mut txn, batch));
        assert_eq!(hub.get_latest_asset_change(&txn), round);
    }
    let nums: Vec<u64> = hub
        .get_asset_changes_iter(&txn)
        .iter()
        .map(|c| c.entry.get().unwrap().num)
        .collect();
    assert_eq!(nums, vec![1, 2, 3]);
    assert_eq!(txn.changes()[2].key, vec![3, 0, 0, 0, 0, 0, 0, 0]);
}

#[test]
fn assets_that_depend_on_each_other_are_reached_once() {
    let mut txn = RwTransaction::new();
    let mut batch = ChangeBatch::new();
    import(&mut txn, 1, 1, &[2], &mut batch);
    import(&mut txn, 1, 2, &[1], &mut batch);
    let hub = AssetHub::new();
    assert!(matches!(
        hub.walk_build_deps(&txn, &id(1), 3),
        Progress::Done(Some(_))
    ));
    assert!(record(&mut txn, batch));
    assert_eq!(log(&txn), vec![1, 2]);
}

#[test]
fn a_circle_below_an_asset_is_never_done() {
    let hub = AssetHub::new();
    let mut txn = RwTransaction::new();
    let mut batch = ChangeBatch::new();
    import(&mut txn, 1, 2, &[3], &mut batch);
    import(&mut txn, 1, 3, &[2], &mut batch);
    let mut batch = ChangeBatch::new();
    import(&mut txn, 1, 1, &[2], &mut batch);
    assert!(matches!(
        hub.walk_build_deps(&txn, &id(1), 500),
        Progress::Pending
    ));
    assert!(matches!(
        hub.add_changes_within(&mut txn, batch, 500),
        Progress::Pending
    ));
    assert_eq!(txn.changes().len(), 0);
}

#[test]
fn more_steps_do_not_change_a_walk_that_is_done() {
    let hub = AssetHub::new();
    let mut txn = RwTransaction::new();
    let mut batch = ChangeBatch::new();
    import(&mut txn, 10, 1, &[2], &mut batch);
    import(&mut txn, 20, 2, &[], &mut batch);
    assert!(matches!(hub.walk_build_deps(&txn, &id(1), 1), Progress::Pending));
    for steps in 2..5u64 {
        assert!(matches!(
            hub.walk_build_deps(&txn, &id(1), steps),
            Progress::Done(Some(hash)) if hash == 20u64.to_le_bytes().to_vec()
        ));
    }
}

#[test]
fn a_path_among_stored_deps_aborts() {
    let hub = AssetHub::new();
    let mut txn = RwTransaction::new();
    let mut batch = ChangeBatch::new();
    import(&mut txn, 1, 1, &[2], &mut batch);
    let mut stored = StoredMetadata::new();
    stored.build_deps = Ok(vec![StoredRef::Path(vec![b'p'])]);
    txn.put_metadata(id(2), Message::new(stored));
    assert!(matches!(
        hub.asset_event(&txn, &id(1), 100),
        Progress::Aborted
    ));
    assert!(matches!(
        hub.add_changes_within(&mut txn, batch, 100),
        Progress::Aborted
    ));
    assert_eq!(txn.changes().len(), 0);
}

#[test]
fn a_log_without_numbers_left_aborts() {
    let hub = AssetHub::new();
    let mut txn = RwTransaction::new();
    let last = build_change_record(u64::MAX, &ChangeEvent::Remove(id(9)));
    assert!(txn.append_change(last));
    let mut batch = ChangeBatch::new();
    import(&mut txn, 1, 1, &[], &mut batch);
    assert!(matches!(
        hub.add_changes_within(&mut txn, batch, 100),
        Progress::Aborted
    ));
    assert_eq!(txn.changes().len(), 1);
}

#[test]
fn an_unreadable_record_fails_and_records_nothing() {
    let hub = AssetHub::new();
    let mut txn = RwTransaction::new();
    let mut batch = ChangeBatch::new();
    import(&mut txn, 1, 1, &[2], &mut batch);
    txn.put_metadata(id(2), Message { root: Err(ReadError::Malformed) });
    assert_eq!(
        hub.add_changes(&mut txn, batch),
        Err(Error::Read(ReadError::Malformed))
    );
    assert_eq!(txn.changes().len(), 0);
}

#[test]
fn an_unreadable_list_fails_and_records_nothing() {
    let hub = AssetHub::new();
    let mut txn = RwTransaction::new();
    let mut batch = ChangeBatch::new();
    import(&mut txn, 1, 1, &[], &mut batch);
    let list = UuidList {
        list: Ok(vec![Ok(vec![1, 2, 3])]),
    };
    txn.put_dependees(id(1), Message::new(list));
    assert_eq!(hub.add_changes(&mut txn, batch), Err(Error::UuidLength));
    assert_eq!(txn.changes().len(), 0);
}

#[test]
fn an_asset_without_an_artifact_has_an_empty_import_hash() {
    let hub = AssetHub::new();
    let mut txn = RwTransaction::new();
    txn.put_metadata(id(1), Message::new(StoredMetadata::new()));
    match hub.asset_event(&txn, &id(1), 10) {
        Progress::Done(ChangeEvent::ContentUpdate(event)) => {
            assert_eq!(event.id, id(1));
            assert_eq!(event.import_hash, Some(vec![]));
            assert_eq!(event.build_dep_hash, Some(compute_digest(&None)));
        }
        other => panic!("{:?}", other),
    }
    assert!(matches!(
        hub.asset_event(&txn, &id(2), 0),
        Progress::Done(ChangeEvent::Remove(gone)) if gone == id(2)
    ));
}

#[test]
fn entries_are_kept_in_the_order_of_their_numbers() {
    let mut txn = RwTransaction::new();
    let entry = |num| build_change_record(num, &ChangeEvent::Remove(id(1)));
    assert!(txn.append_change(entry(300)));
    assert!(!txn.append_change(entry(300)));
    assert!(!txn.append_change(entry(299)));
    assert!(txn.append_change(entry(65536)));
    let mut short = entry(70000);
    short.key.pop();
    assert!(!txn.append_change(short));
    assert_eq!(txn.changes().len(), 2);
    assert_eq!(AssetHub::new().get_latest_asset_change(&txn), 65536);
}

#[test]
fn events_are_stored_field_by_field() {
    let event = ChangeEvent::ContentUpdate(AssetContentUpdateEvent {
        id: id(4),
        import_hash: None,
        build_dep_hash: None,
    });
    let record = build_change_record(258, &event);
    assert_eq!(record.key, vec![2, 1, 0, 0, 0, 0, 0, 0]);
    assert_eq!(parse_sequence_key(&record.key), 258);
    let entry = record.entry.get().unwrap();
    assert_eq!(entry.num, 258);
    assert!(matches!(
        &entry.event,
        LoggedEvent::ContentUpdate { id, import_hash: None, build_dep_hash }
            if id == &vec![4; 16] && build_dep_hash.is_empty()
    ));
}

#[test]
fn tables_have_their_names_and_orders() {
    assert_eq!(TableName::AssetMetadata.name(), "asset_metadata");
    assert_eq!(TableName::BuildDepReverse.name(), "build_dep_reverse");
    assert_eq!(TableName::AssetChanges.name(), "asset_changes");
    assert!(!TableName::AssetMetadata.integer_key());
    assert!(!TableName::BuildDepReverse.integer_key());
    assert!(TableName::AssetChanges.integer_key());
}

#[test]
fn a_content_update_carries_what_it_is_given() {
    let mut record = StoredMetadata::new();
    record.latest_artifact = Ok(LatestArtifact::Id(Ok(vec![1, 2])));
    match content_update(&id(3), &record, vec![9, 8, 7]) {
        Ok(ChangeEvent::ContentUpdate(event)) => {
            assert_eq!(event.id, id(3));
            assert_eq!(event.import_hash, Some(vec![1, 2]));
            assert_eq!(event.build_dep_hash, Some(vec![9, 8, 7]));
        }
        other => panic!("{:?}", other),
    }
    record.latest_artifact = Err(ReadError::NotInSchema(2));
    assert!(matches!(
        content_update(&id(3), &record, vec![]),
        Err(Error::Read(ReadError::NotInSchema(2)))
    ));
}
