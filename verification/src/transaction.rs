//! A transaction: the contents of the three tables that the hub reads and
//! writes.
use vstd::prelude::*;

use crate::asset::{AssetUuid, Key};
use crate::change::{
    follows, log_in_order, parse_sequence_key, ChangeRecord, ChangeRecordModel, SEQUENCE_LEN,
};
use crate::message::{Field, Message, RecordModel, StoredMetadata, UuidList, UuidListModel};
use crate::table::{lemma_lists_all, lists_in_order, Table};

verus! {

/// The index from each asset to the assets that are built from it.
pub type IndexModel = Map<Key, Field<UuidListModel>>;

/// What a transaction stands for.
#[verifier::ext_equal]
pub struct Store {
    /// The metadata of each asset.
    pub metadata: Map<Key, Field<RecordModel>>,
    /// For each asset, the assets that have a build dependency on it.
    pub dependees: IndexModel,
    /// The change log, in the order of its numbers.
    pub changes: Seq<ChangeRecordModel>,
}

/// The tables of the hub.
#[derive(Clone, Copy, PartialEq, Eq, Debug, Structural)]
pub enum TableName {
    AssetMetadata,
    BuildDepReverse,
    AssetChanges,
}

impl TableName {
    /// The name under which the table is stored.
    pub fn name(self) -> (name: &'static str)
        ensures
            name@ == (match self {
                TableName::AssetMetadata => "asset_metadata"@,
                TableName::BuildDepReverse => "build_dep_reverse"@,
                TableName::AssetChanges => "asset_changes"@,
            }),
    {
        match self {
            TableName::AssetMetadata => "asset_metadata",
            TableName::BuildDepReverse => "build_dep_reverse",
            TableName::AssetChanges => "asset_changes",
        }
    }

    /// Whether the keys of the table are numbers, and ordered as such.
    pub fn integer_key(self) -> (res: bool)
        ensures
            res == (self is AssetChanges),
    {
        match self {
            TableName::AssetChanges => true,
            _ => false,
        }
    }
}

/// The contents of the three tables, as one transaction sees them.
#[derive(Debug)]
pub struct RwTransaction {
    metadata: Table<Message<StoredMetadata>>,
    dependees: Table<Message<UuidList>>,
    changes: Vec<ChangeRecord>,
}

impl View for RwTransaction {
    type V = Store;

    closed spec fn view(&self) -> Store {
        Store {
            metadata: self.metadata@,
            dependees: self.dependees@,
            changes: self.changes@.map_values(|c: ChangeRecord| c@),
        }
    }
}

impl RwTransaction {
    /// The tables are in order.
    pub closed spec fn wf(&self) -> bool {
        &&& self.metadata.wf()
        &&& self.dependees.wf()
        &&& log_in_order(self@.changes)
    }

    /// A transaction on empty tables.
    pub fn new() -> (txn: Self)
        ensures
            txn.wf(),
            txn@ == (Store { metadata: Map::empty(), dependees: Map::empty(), changes: Seq::empty() }),
    {
        let txn = RwTransaction {
            metadata: Table::new(),
            dependees: Table::new(),
            changes: Vec::new(),
        };
        assert(txn@.changes =~= Seq::<ChangeRecordModel>::empty());
        txn
    }

    /// What a well-formed transaction holds: finitely many assets, and a log in
    /// order.
    pub proof fn lemma_wf(&self)
        requires
            self.wf(),
        ensures
            self@.metadata.dom().finite(),
            self@.dependees.dom().finite(),
            log_in_order(self@.changes),
    {
        self.metadata.lemma_domain();
        self.dependees.lemma_domain();
    }

    /// The metadata of an asset, if there is any.
    pub fn metadata(&self, id: &AssetUuid) -> (res: Option<&Message<StoredMetadata>>)
        requires
            self.wf(),
        ensures
            match res {
                Some(message) => self@.metadata.contains_key(id@) && self@.metadata[id@] == message@,
                None => !self@.metadata.contains_key(id@),
            },
    {
        self.metadata.get(id)
    }

    /// The metadata of each asset, in the order of their names.
    pub fn metadata_entries(&self) -> (res: &Vec<(AssetUuid, Message<StoredMetadata>)>)
        requires
            self.wf(),
        ensures
            lists_in_order(res@, self@.metadata),
            forall|i: int|
                0 <= i < res@.len() ==> self@.metadata.contains_key((#[trigger] res@[i]).0@)
                    && self@.metadata[res@[i].0@] == res@[i].1@,
            forall|id: Key| #[trigger]
                self@.metadata.contains_key(id) ==> exists|i: int|
                    0 <= i < res@.len() && (#[trigger] res@[i]).0@ == id,
    {
        let res = self.metadata.entries();
        proof {
            lemma_lists_all(res@, self.metadata@);
        }
        res
    }

    /// Puts the metadata of an asset in place of what was there.
    pub fn put_metadata(&mut self, id: AssetUuid, message: Message<StoredMetadata>)
        requires
            old(self).wf(),
        ensures
            final(self).wf(),
            final(self)@ == (Store {
                metadata: old(self)@.metadata.insert(id@, message@),
                ..old(self)@
            }),
    {
        self.metadata.put(id, message);
    }

    /// Removes the metadata of an asset, and says whether there was any.
    pub fn delete_metadata(&mut self, id: &AssetUuid) -> (existed: bool)
        requires
            old(self).wf(),
        ensures
            final(self).wf(),
            existed == old(self)@.metadata.contains_key(id@),
            final(self)@ == (Store { metadata: old(self)@.metadata.remove(id@), ..old(self)@ }),
    {
        self.metadata.delete(id)
    }

    /// The stored list of the assets that are built from an asset, if there is
    /// one.
    pub fn dependees(&self, id: &AssetUuid) -> (res: Option<&Message<UuidList>>)
        requires
            self.wf(),
        ensures
            match res {
                Some(message) => self@.dependees.contains_key(id@) && self@.dependees[id@]
                    == message@,
                None => !self@.dependees.contains_key(id@),
            },
    {
        self.dependees.get(id)
    }

    /// Puts the list of the assets that are built from an asset.
    pub fn put_dependees(&mut self, id: AssetUuid, message: Message<UuidList>)
        requires
            old(self).wf(),
        ensures
            final(self).wf(),
            final(self)@ == (Store {
                dependees: old(self)@.dependees.insert(id@, message@),
                ..old(self)@
            }),
    {
        self.dependees.put(id, message);
    }

    /// Removes the list of the assets that are built from an asset, and says
    /// whether there was one.
    pub fn delete_dependees(&mut self, id: &AssetUuid) -> (existed: bool)
        requires
            old(self).wf(),
        ensures
            final(self).wf(),
            existed == old(self)@.dependees.contains_key(id@),
            final(self)@ == (Store { dependees: old(self)@.dependees.remove(id@), ..old(self)@ }),
    {
        self.dependees.delete(id)
    }

    /// The change log, in the order of its numbers.
    pub fn changes(&self) -> (res: &Vec<ChangeRecord>)
        ensures
            res@.map_values(|c: ChangeRecord| c@) == self@.changes,
    {
        &self.changes
    }

    /// Puts an entry behind the change log, if its key can stand there, and says
    /// whether it did.
    pub fn append_change(&mut self, record: ChangeRecord) -> (appended: bool)
        requires
            old(self).wf(),
        ensures
            final(self).wf(),
            appended == follows(old(self)@.changes, record@.key),
            final(self)@ == (if appended {
                Store { changes: old(self)@.changes.push(record@), ..old(self)@ }
            } else {
                old(self)@
            }),
    {
        if record.key.len() != SEQUENCE_LEN {
            return false;
        }
        let n = self.changes.len();
        if n > 0 {
            assert(self@.changes[n - 1] == self.changes@[n - 1]@);
            let last = parse_sequence_key(self.changes[n - 1].key.as_slice());
            let next = parse_sequence_key(record.key.as_slice());
            if last >= next {
                return false;
            }
        }
        self.changes.push(record);
        assert(self@.changes =~= old(self)@.changes.push(record@));
        true
    }
}

}
