use asset_hub::asset::AssetUuid;
use asset_hub::message::{Message, UuidList};
use asset_hub::table::Table;

fn key(a: u8, b: u8) -> AssetUuid {
    let mut bytes = [0; 16];
    bytes[0] = a;
    bytes[15] = b;
    AssetUuid(bytes)
}

fn list(n: usize) -> Message<UuidList> {
    Message::new(UuidList {
        list: Ok((0..n).map(|_| Ok(vec![])).collect()),
    })
}

fn len(message: &Message<UuidList>) -> usize {
    message.get().unwrap().list.as_ref().unwrap().len()
}

#[test]
fn a_table_holds_what_was_put_last() {
    let mut table = Table::new();
    assert!(table.get(&key(1, 1)).is_none());
    table.put(key(1, 1), list(1));
    table.put(key(1, 2), list(2));
    table.put(key(1, 1), list(3));
    assert_eq!(table.get(&key(1, 1)).map(len), Some(3));
    assert_eq!(table.get(&key(1, 2)).map(len), Some(2));
    assert!(table.get(&key(1, 3)).is_none());
}

#[test]
fn deleting_says_whether_there_was_an_entry() {
    let mut table = Table::new();
    table.put(key(1, 1), list(1));
    assert!(!table.delete(&key(2, 1)));
    assert!(table.delete(&key(1, 1)));
    assert!(!table.delete(&key(1, 1)));
    assert_eq!(table.entries().len(), 0);
}

#[test]
fn entries_come_in_the_order_of_their_keys() {
    let mut table = Table::new();
    for (a, b) in [(2, 0), (1, 9), (255, 1), (1, 10), (0, 0)] {
        table.put(key(a, b), list(0));
    }
    let keys: Vec<AssetUuid> = table.entries().iter().map(|(k, _)| *k).collect();
    assert_eq!(
        keys,
        vec![key(0, 0), key(1, 9), key(1, 10), key(2, 0), key(255, 1)]
    );
}

#[test]
fn names_are_the_same_byte_for_byte() {
    assert!(key(1, 2).same(&key(1, 2)));
    assert!(!key(1, 2).same(&key(1, 3)));
    assert!(!key(1, 2).same(&key(2, 2)));
}
