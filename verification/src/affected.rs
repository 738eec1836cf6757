//! The assets that a batch of changes affects: those that changed, those that
//! are built from them, and so on.
use std::collections::VecDeque;

use vstd::prelude::*;

use crate::asset::{AssetUuid, Key};
use crate::change::keys_of;
use crate::hub::AssetHub;
use crate::index::dependees_of;
use crate::message::Error;
use crate::table::Table;
use crate::transaction::{IndexModel, RwTransaction};

verus! {

/// The assets that have a list in the index and were not found yet.
pub open spec fn unexplored(index: IndexModel, found: Seq<Key>) -> Set<Key> {
    index.dom().difference(found.to_set())
}

/// Finding an asset leaves one list fewer to explore, if it has one.
pub proof fn lemma_unexplored(index: IndexModel, found: Seq<Key>, id: Key)
    requires
        index.dom().finite(),
        !found.contains(id),
    ensures
        index.contains_key(id) ==> unexplored(index, found.push(id)).len() < unexplored(
            index,
            found,
        ).len(),
        !index.contains_key(id) ==> unexplored(index, found.push(id)) == unexplored(index, found),
{
    assert(found.push(id).to_set() =~= found.to_set().insert(id)) by {
        assert forall|k: Key| found.to_set().insert(id).contains(k) implies found.push(
            id,
        ).to_set().contains(k) by {
            if k == id {
                assert(found.push(id)[found.len() as int] == id);
            } else {
                let i = choose|i: int| 0 <= i < found.len() && found[i] == k;
                assert(found.push(id)[i] == k);
            }
        }
    }
    if index.contains_key(id) {
        assert(unexplored(index, found.push(id)) =~= unexplored(index, found).remove(id));
        assert(!found.to_set().contains(id));
        assert(unexplored(index, found).contains(id));
    } else {
        assert(unexplored(index, found.push(id)) =~= unexplored(index, found));
    }
}

/// The assets that are found from `found` and `queue`, in the order in which
/// they are found, or why some dependees cannot be read.
///
/// The queue is taken from the front. An asset that was not found before is
/// found now, and its dependees go behind the queue.
pub open spec fn spread(index: IndexModel, queue: Seq<Key>, found: Seq<Key>) -> Result<
    Seq<Key>,
    Error,
>
    decreases unexplored(index, found).len(), queue.len(),
    when index.dom().finite()
{
    if queue.len() == 0 {
        Ok(found)
    } else {
        let id = queue.first();
        let rest = queue.drop_first();
        if found.contains(id) {
            spread(index, rest, found)
        } else {
            match dependees_of(index, id) {
                Err(e) => Err(e),
                Ok(list) => {
                    proof {
                        lemma_unexplored(index, found, id);
                    }
                    spread(index, rest + list, found.push(id))
                },
            }
        }
    }
}

/// The assets that a batch affects.
pub open spec fn affected(index: IndexModel, batch: Seq<Key>) -> Result<Seq<Key>, Error> {
    spread(index, batch, Seq::empty())
}

impl AssetHub {
    /// The assets that changes to the assets in `batch` affect.
    pub(crate) fn affected_assets(&self, txn: &RwTransaction, batch: Vec<AssetUuid>) -> (res: Result<
        Vec<AssetUuid>,
        Error,
    >)
        requires
            txn.wf(),
        ensures
            match res {
                Ok(assets) => affected(txn@.dependees, keys_of(batch@)) == Result::<
                    Seq<Key>,
                    Error,
                >::Ok(keys_of(assets@)),
                Err(e) => affected(txn@.dependees, keys_of(batch@)) == Result::<
                    Seq<Key>,
                    Error,
                >::Err(e),
            },
    {
        let ghost index = txn@.dependees;
        let ghost start = keys_of(batch@);
        let mut to_check: VecDeque<AssetUuid> = VecDeque::new();
        let mut i: usize = 0;
        while i < batch.len()
            invariant
                i <= batch@.len(),
                to_check@ == batch@.take(i as int),
            decreases batch@.len() - i,
        {
            to_check.push_back(batch[i]);
            i += 1;
            assert(to_check@ =~= batch@.take(i as int));
        }
        assert(to_check@ =~= batch@);
        let mut affected_assets: Table<()> = Table::new();
        let mut order: Vec<AssetUuid> = Vec::new();
        proof {
            txn.lemma_wf();
            assert(keys_of(order@) =~= Seq::<Key>::empty());
        }
        while to_check.len() > 0
            invariant
                txn.wf(),
                index == txn@.dependees,
                index.dom().finite(),
                start == keys_of(batch@),
                affected_assets.wf(),
                forall|k: Key|
                    affected_assets@.contains_key(k) <==> #[trigger] keys_of(order@).contains(k),
                affected(index, start) == spread(index, keys_of(to_check@), keys_of(order@)),
            decreases unexplored(index, keys_of(order@)).len(), to_check@.len(),
        {
            let ghost queue = keys_of(to_check@);
            let ghost found = keys_of(order@);
            let id = to_check.pop_front().unwrap();
            assert(queue.first() == id@);
            assert(keys_of(to_check@) =~= queue.drop_first());
            assert(affected_assets@.contains_key(id@) <==> found.contains(id@));
            if affected_assets.get(&id).is_none() {
                match self.read_dependees(txn, &id) {
                    Ok(dependees) => {
                        let ghost rest = to_check@;
                        let mut j: usize = 0;
                        while j < dependees.len()
                            invariant
                                j <= dependees@.len(),
                                to_check@ == rest + dependees@.take(j as int),
                            decreases dependees@.len() - j,
                        {
                            to_check.push_back(dependees[j]);
                            j += 1;
                            assert(to_check@ =~= rest + dependees@.take(j as int));
                        }
                        assert(dependees@.take(j as int) =~= dependees@);
                        assert(keys_of(to_check@) =~= keys_of(rest) + keys_of(dependees@));
                        affected_assets.put(id, ());
                        order.push(id);
                        proof {
                            assert(keys_of(order@) =~= found.push(id@));
                            lemma_unexplored(index, found, id@);
                            assert forall|k: Key|
                                affected_assets@.contains_key(k) <==> #[trigger] keys_of(
                                    order@,
                                ).contains(k) by {
                                if found.contains(k) {
                                    let n = choose|n: int| 0 <= n < found.len() && found[n] == k;
                                    assert(keys_of(order@)[n] == k);
                                }
                                if k == id@ {
                                    assert(keys_of(order@)[found.len() as int] == k);
                                }
                            }
                        }
                    },
                    Err(e) => {
                        return Err(e);
                    },
                }
            }
        }
        Ok(order)
    }
}

}
