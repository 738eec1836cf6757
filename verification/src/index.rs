//! The index from each asset to its dependees, the assets that have a build
//! dependency on it.
use vstd::prelude::*;
use vstd::slice::slice_to_vec;

use crate::asset::{make_array, AssetUuid, Key, UUID_LEN};
use crate::change::keys_of;
use crate::message::{bytes_model, Error, Field, Message, UuidList, UuidListModel};
use crate::transaction::IndexModel;

verus! {

/// The name that a field of bytes holds, or why it holds none.
pub open spec fn uuid_of(field: Field<Seq<u8>>) -> Result<Key, Error> {
    match field {
        Err(e) => Err(Error::Read(e)),
        Ok(bytes) => if bytes.len() == UUID_LEN {
            Ok(bytes)
        } else {
            Err(Error::UuidLength)
        },
    }
}

/// The names that a list of fields holds, or why the first that holds none
/// does not.
pub open spec fn uuids_of(items: Seq<Field<Seq<u8>>>) -> Result<Seq<Key>, Error>
    decreases items.len(),
{
    if items.len() == 0 {
        Ok(Seq::empty())
    } else {
        match uuids_of(items.drop_last()) {
            Err(e) => Err(e),
            Ok(before) => match uuid_of(items.last()) {
                Err(e) => Err(e),
                Ok(uuid) => Ok(before.push(uuid)),
            },
        }
    }
}

/// The names in a stored list, or why it cannot be read.
pub open spec fn list_of(message: Field<UuidListModel>) -> Result<Seq<Key>, Error> {
    match message {
        Err(e) => Err(Error::Read(e)),
        Ok(Err(e)) => Err(Error::Read(e)),
        Ok(Ok(items)) => uuids_of(items),
    }
}

/// The stored form of a list of names.
pub open spec fn list_message(uuids: Seq<Key>) -> Field<UuidListModel> {
    Ok(Ok(uuids.map_values(|u: Key| Field::<Seq<u8>>::Ok(u))))
}

/// The dependees of an asset, or why they cannot be read. An asset without a
/// list has none.
pub open spec fn dependees_of(index: IndexModel, dep: Key) -> Result<Seq<Key>, Error> {
    if index.contains_key(dep) {
        list_of(index[dep])
    } else {
        Ok(Seq::empty())
    }
}

/// What becomes of the index, and whether the change went through.
#[verifier::ext_equal]
pub struct Indexed {
    pub index: IndexModel,
    pub result: Result<(), Error>,
}

/// Adds `id` behind the dependees of `dep`.
pub open spec fn link(index: IndexModel, dep: Key, id: Key) -> Indexed {
    match dependees_of(index, dep) {
        Err(e) => Indexed { index, result: Err(e) },
        Ok(list) => Indexed {
            index: index.insert(dep, list_message(list.push(id))),
            result: Ok(()),
        },
    }
}

/// Adds `id` behind the dependees of each of `deps` in turn, up to the first
/// whose dependees cannot be read.
pub open spec fn link_all(index: IndexModel, deps: Seq<Key>, id: Key) -> Indexed
    decreases deps.len(),
{
    if deps.len() == 0 {
        Indexed { index, result: Ok(()) }
    } else {
        let before = link_all(index, deps.drop_last(), id);
        if before.result is Err {
            before
        } else {
            link(before.index, deps.last(), id)
        }
    }
}

/// A list with every `id` taken out: as long as there is one, the last name is
/// put in the place of the first.
pub open spec fn without(list: Seq<Key>, id: Key) -> Seq<Key>
    decreases list.len(),
{
    match list.index_of_first(id) {
        Some(i) => {
            proof {
                list.index_of_first_ensures(id);
            }
            without(list.update(i, list.last()).drop_last(), id)
        },
        None => list,
    }
}

/// The index with `list` as the dependees of `dep`: no list where it is empty.
pub open spec fn with_list(index: IndexModel, dep: Key, list: Seq<Key>) -> IndexModel {
    if list.len() == 0 {
        index.remove(dep)
    } else {
        index.insert(dep, list_message(list))
    }
}

/// Takes every `id` out of the dependees of `dep`.
pub open spec fn unlink(index: IndexModel, dep: Key, id: Key) -> Indexed {
    match dependees_of(index, dep) {
        Err(e) => Indexed { index, result: Err(e) },
        Ok(list) => Indexed { index: with_list(index, dep, without(list, id)), result: Ok(()) },
    }
}

/// Takes every `id` out of the dependees of each of `deps` in turn, up to the first
/// whose dependees cannot be read.
pub open spec fn unlink_all(index: IndexModel, deps: Seq<Key>, id: Key) -> Indexed
    decreases deps.len(),
{
    if deps.len() == 0 {
        Indexed { index, result: Ok(()) }
    } else {
        let before = unlink_all(index, deps.drop_last(), id);
        if before.result is Err {
            before
        } else {
            unlink(before.index, deps.last(), id)
        }
    }
}

/// Once a link fails, the rest is not tried.
pub proof fn lemma_link_all_stops(index: IndexModel, deps: Seq<Key>, id: Key, n: int)
    requires
        0 <= n <= deps.len(),
        link_all(index, deps.take(n), id).result is Err,
    ensures
        link_all(index, deps, id) == link_all(index, deps.take(n), id),
    decreases deps.len() - n,
{
    if n == deps.len() {
        assert(deps.take(n) =~= deps);
    } else {
        assert(deps.take(n + 1).drop_last() =~= deps.take(n));
        lemma_link_all_stops(index, deps, id, n + 1);
    }
}

/// Once an unlink fails, the rest is not tried.
pub proof fn lemma_unlink_all_stops(index: IndexModel, deps: Seq<Key>, id: Key, n: int)
    requires
        0 <= n <= deps.len(),
        unlink_all(index, deps.take(n), id).result is Err,
    ensures
        unlink_all(index, deps, id) == unlink_all(index, deps.take(n), id),
    decreases deps.len() - n,
{
    if n == deps.len() {
        assert(deps.take(n) =~= deps);
    } else {
        assert(deps.take(n + 1).drop_last() =~= deps.take(n));
        lemma_unlink_all_stops(index, deps, id, n + 1);
    }
}

/// Once an item of a list fails, the list does.
pub proof fn lemma_uuids_of_stops(items: Seq<Field<Seq<u8>>>, n: int)
    requires
        0 <= n <= items.len(),
        uuids_of(items.take(n)) is Err,
    ensures
        uuids_of(items) == uuids_of(items.take(n)),
    decreases items.len() - n,
{
    if n == items.len() {
        assert(items.take(n) =~= items);
    } else {
        assert(items.take(n + 1).drop_last() =~= items.take(n));
        lemma_uuids_of_stops(items, n + 1);
    }
}

/// Copies a name out of bytes, if there are sixteen.
pub fn uuid_from_slice(slice: &[u8]) -> (res: Result<AssetUuid, Error>)
    ensures
        match res {
            Ok(uuid) => uuid_of(Ok(slice@)) == Result::<Key, Error>::Ok(uuid@),
            Err(e) => uuid_of(Ok(slice@)) == Result::<Key, Error>::Err(e),
        },
{
    if slice.len() == UUID_LEN {
        Ok(AssetUuid(make_array(slice)))
    } else {
        Err(Error::UuidLength)
    }
}

/// Reads a stored list of names.
pub fn read_uuid_list(message: &Message<UuidList>) -> (res: Result<Vec<AssetUuid>, Error>)
    ensures
        match res {
            Ok(uuids) => list_of(message@) == Result::<Seq<Key>, Error>::Ok(keys_of(uuids@)),
            Err(e) => list_of(message@) == Result::<Seq<Key>, Error>::Err(e),
        },
{
    let root = match message.get() {
        Ok(root) => root,
        Err(e) => {
            return Err(Error::Read(e));
        },
    };
    let items: &Vec<Field<Vec<u8>>> = match &root.list {
        Ok(items) => items,
        Err(e) => {
            return Err(Error::Read(*e));
        },
    };
    let ghost model = items@.map_values(|i: Field<Vec<u8>>| bytes_model(i));
    let mut uuids: Vec<AssetUuid> = Vec::new();
    let mut i: usize = 0;
    assert(keys_of(uuids@) =~= Seq::<Key>::empty());
    assert(model.take(0) =~= Seq::<Field<Seq<u8>>>::empty());
    while i < items.len()
        invariant
            i <= items@.len(),
            model == items@.map_values(|i: Field<Vec<u8>>| bytes_model(i)),
            list_of(message@) == uuids_of(model),
            uuids_of(model.take(i as int)) == Result::<Seq<Key>, Error>::Ok(keys_of(uuids@)),
        decreases items@.len() - i,
    {
        assert(model.take(i + 1).drop_last() =~= model.take(i as int));
        assert(model.take(i + 1).last() == bytes_model(items@[i as int]));
        let bytes: &Vec<u8> = match &items[i] {
            Ok(bytes) => bytes,
            Err(e) => {
                proof {
                    lemma_uuids_of_stops(model, i + 1);
                }
                return Err(Error::Read(*e));
            },
        };
        match uuid_from_slice(bytes.as_slice()) {
            Ok(uuid) => {
                let ghost before = uuids@;
                uuids.push(uuid);
                assert(keys_of(uuids@) =~= keys_of(before).push(uuid@));
            },
            Err(e) => {
                proof {
                    lemma_uuids_of_stops(model, i + 1);
                }
                return Err(e);
            },
        }
        i += 1;
    }
    assert(model.take(i as int) =~= model);
    Ok(uuids)
}

/// Stores a list of names.
pub fn write_uuid_list(uuids: &Vec<AssetUuid>) -> (message: Message<UuidList>)
    ensures
        message@ == list_message(keys_of(uuids@)),
{
    let mut items: Vec<Field<Vec<u8>>> = Vec::new();
    let mut i: usize = 0;
    while i < uuids.len()
        invariant
            i <= uuids@.len(),
            items@.len() == i,
            forall|j: int|
                0 <= j < i ==> bytes_model(#[trigger] items@[j]) == Field::<Seq<u8>>::Ok(
                    uuids@[j]@,
                ),
        decreases uuids@.len() - i,
    {
        items.push(Ok(slice_to_vec(uuids[i].0.as_slice())));
        i += 1;
    }
    let message = Message::new(UuidList { list: Ok(items) });
    assert(message@->Ok_0->Ok_0 =~= list_message(keys_of(uuids@))->Ok_0->Ok_0);
    message
}

/// Takes every `id` out of a list. The last name is put in the place of each.
pub fn swap_remove_uuid(uuids: &mut Vec<AssetUuid>, id: &AssetUuid)
    ensures
        keys_of(final(uuids)@) == without(keys_of(old(uuids)@), id@),
{
    let ghost goal = without(keys_of(uuids@), id@);
    let mut i: usize = 0;
    while i < uuids.len()
        invariant
            goal == without(keys_of(old(uuids)@), id@),
            goal == without(keys_of(uuids@), id@),
            i <= uuids@.len(),
            forall|j: int| 0 <= j < i ==> keys_of(uuids@)[j] != id@,
        decreases uuids@.len() - i,
    {
        let ghost keys = keys_of(uuids@);
        if uuids[i].same(id) {
            proof {
                assert(keys[i as int] == id@);
                keys.index_of_first_ensures(id@);
                assert(keys.contains(id@));
                let k = keys.index_of_first(id@)->Some_0;
                assert(keys[k] == id@);
                assert(k == i);
            }
            uuids.swap_remove(i);
            assert(keys_of(uuids@) =~= keys.update(i as int, keys.last()).drop_last());
        } else {
            assert(keys[i as int] != id@);
            i += 1;
        }
    }
    proof {
        keys_of(uuids@).index_of_first_ensures(id@);
        assert(!keys_of(uuids@).contains(id@));
    }
}

}
