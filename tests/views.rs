use matterdb::changes::{ChangesIter, ViewChanges};
use matterdb::address::IndexAddress;
use matterdb::cli::StoredTransaction;
use matterdb::codec::{BinaryKey, BinaryValue};
use matterdb::db::{AccessError, Database, IndexType};
use matterdb::entry::Entry;
use matterdb::view::View;

#[test]
fn overlay_takes_precedence_over_snapshot() {
    let mut db = Database::new();
    let mut fork = db.fork();
    let addr = fork.resolve(&IndexAddress::from_root("m"), IndexType::KeyMap).unwrap();
    let mut view = fork.view(&addr);
    view.put(&1u64, 10u64);
    view.put(&2u64, 20u64);
    fork.release(view);
    db.merge(fork.into_patch());

    let mut fork = db.fork();
    let mut view = fork.view(&addr);
    assert_eq!(view.get::<u64, u64>(&1), Some(10));
    view.put(&1u64, 11u64);
    assert_eq!(view.get::<u64, u64>(&1), Some(11));
    assert_eq!(view.get::<u64, u64>(&2), Some(20));
    view.remove(&2u64);
    assert_eq!(view.get::<u64, u64>(&2), None);
    assert!(!view.contains(&2u64));

    view.clear();
    assert_eq!(view.get::<u64, u64>(&1), None);
    view.put(&1u64, 99u64);
    assert_eq!(view.get::<u64, u64>(&1), Some(99));
    let mut it = view.iter::<(), u64, u64>(&());
    assert_eq!(it.next(), Some((1, 99)));
    assert_eq!(it.next(), None);
    fork.release(view);
    db.merge(fork.into_patch());

    let fork = db.fork();
    let view = fork.snapshot_view(&addr);
    assert_eq!(view.get::<u64, u64>(&1), Some(99));
    assert_eq!(view.get::<u64, u64>(&2), None);
}

#[test]
fn multi_get_keeps_request_order() {
    let mut db = Database::new();
    let mut fork = db.fork();
    let addr = fork.resolve(&IndexAddress::from_root("m"), IndexType::KeyMap).unwrap();
    let mut view = fork.view(&addr);
    view.put(&1u64, 10u64);
    view.put(&3u64, 30u64);
    fork.release(view);
    db.merge(fork.into_patch());

    let mut fork = db.fork();
    let mut view = fork.view(&addr);
    view.put(&2u64, 20u64);
    view.remove(&3u64);
    let got = view.multi_get::<u64, u64>(&vec![3, 2, 1, 4]);
    assert_eq!(got, vec![None, Some(20), Some(10), None]);
}

#[test]
fn iteration_merges_in_key_order() {
    let mut db = Database::new();
    let mut fork = db.fork();
    let addr = fork.resolve(&IndexAddress::from_root("m"), IndexType::KeyMap).unwrap();
    let mut view = fork.view(&addr);
    for k in [5u64, 1, 9] {
        view.put(&k, k * 10);
    }
    fork.release(view);
    db.merge(fork.into_patch());

    let mut fork = db.fork();
    let mut view = fork.view(&addr);
    view.put(&3u64, 33u64);
    view.put(&9u64, 99u64);
    view.remove(&5u64);
    let mut it = view.iter::<(), u64, u64>(&());
    let mut got = Vec::new();
    while let Some(kv) = it.next() {
        got.push(kv);
    }
    assert_eq!(got, vec![(1, 10), (3, 33), (9, 99)]);

    let mut it = view.iter_from::<(), u64, u64, u64>(&(), &3u64);
    assert_eq!(it.next(), Some((3, 33)));
    assert_eq!(it.next(), Some((9, 99)));
    assert_eq!(it.next(), None);
}

#[test]
fn collections_do_not_see_each_other() {
    let mut db = Database::new();
    let mut fork = db.fork();
    let a = fork.resolve(&IndexAddress::from_root("list"), IndexType::List).unwrap();
    let b = fork
        .resolve(&IndexAddress::from_root("list").append_key(&1u32), IndexType::List)
        .unwrap();
    let c = fork.resolve(&IndexAddress::from_root("lis"), IndexType::List).unwrap();
    for (addr, base) in [(&a, 0u64), (&b, 100), (&c, 200)] {
        let mut view = fork.view(addr);
        view.put(&0u64, base);
        view.put(&1u64, base + 1);
        fork.release(view);
    }
    db.merge(fork.into_patch());

    let fork = db.fork();
    for (addr, base) in [(&a, 0u64), (&b, 100), (&c, 200)] {
        let view = fork.snapshot_view(addr);
        let mut it = view.iter::<(), u64, u64>(&());
        assert_eq!(it.next(), Some((0, base)));
        assert_eq!(it.next(), Some((1, base + 1)));
        assert_eq!(it.next(), None);
    }
}

#[test]
fn subprefix_iteration_stops_at_prefix_end() {
    let mut db = Database::new();
    let mut fork = db.fork();
    let addr = fork.resolve(&IndexAddress::from_root("m"), IndexType::KeyMap).unwrap();
    let mut view = fork.view(&addr);
    view.put(&0x0100_0000_0000_0001u64, 1u64);
    view.put(&0x0100_0000_0000_0002u64, 2u64);
    view.put(&0x0200_0000_0000_0001u64, 3u64);
    let mut it = view.iter::<u32, u64, u64>(&0x0100_0000u32);
    assert_eq!(it.next(), Some((0x0100_0000_0000_0001, 1)));
    assert_eq!(it.next(), Some((0x0100_0000_0000_0002, 2)));
    assert_eq!(it.next(), None);
    assert_eq!(it.next(), None);
    let mut values_only = view.iter::<u32, u64, u64>(&0x0200_0000u32).drop_key_type();
    assert_eq!(values_only.next_bytes().map(|(_, v)| v), Some(3u64.to_bytes()));
    fork.release(view);
    db.merge(fork.into_patch());
}

#[test]
fn reopening_with_another_kind_fails() {
    let db = Database::new();
    let mut fork = db.fork();
    let foo = IndexAddress::from_root("foo");
    assert!(fork.resolve(&foo, IndexType::KeyMap).is_ok());
    assert_eq!(
        fork.resolve(&foo, IndexType::List).err(),
        Some(AccessError::TypeMismatch { expected: IndexType::List, actual: IndexType::KeyMap })
    );
    assert!(fork.resolve(&foo, IndexType::KeyMap).is_ok());
}

#[test]
fn registry_lists_names_with_prefix_filter() {
    let mut db = Database::new();
    let mut fork = db.fork();
    fork.resolve(&IndexAddress::from_root("list"), IndexType::List).unwrap();
    fork.resolve(&IndexAddress::from_root("list").append_key(&1u32), IndexType::List).unwrap();
    fork.resolve(&IndexAddress::from_root("map"), IndexType::KeyMap).unwrap();
    db.merge(fork.into_patch());

    let mut fork = db.fork();
    let all = fork.index_list(None);
    assert_eq!(all.len(), 3);
    assert!(all.contains(&(b"list".to_vec(), IndexType::List)));
    assert!(all.contains(&(b"list\0\0\0\0\x01".to_vec(), IndexType::List)));
    assert!(all.contains(&(b"map".to_vec(), IndexType::KeyMap)));
    let lists = fork.index_list(Some(b"li"));
    assert_eq!(lists.len(), 2);
    assert!(lists.iter().all(|(_, t)| *t == IndexType::List));
}

#[test]
fn phantom_view_reads_empty() {
    let view = View::new_phantom();
    assert_eq!(view.get::<u64, u64>(&1), None);
    assert!(!view.contains(&1u64));
    assert!(view.access().is_none());
    assert_eq!(view.multi_get::<u64, u64>(&vec![1, 2]), vec![None, None]);
}

#[test]
fn put_or_forget_on_readonly_view() {
    let mut db = Database::new();
    let mut fork = db.fork();
    let addr = fork.resolve(&IndexAddress::from_root("m"), IndexType::KeyMap).unwrap();
    let mut view = fork.view(&addr);
    assert!(view.put_or_forget(&1u64, 5u64));
    fork.release(view);
    db.merge(fork.into_patch());

    let fork = db.fork();
    let mut ro = fork.snapshot_view(&addr);
    assert!(!ro.put_or_forget(&1u64, 6u64));
    assert_eq!(ro.get::<u64, u64>(&1), Some(5));
    let mut phantom = View::new_phantom();
    assert!(!phantom.put_or_forget(&1u64, 6u64));
}

#[test]
fn entry_set_take_swap() {
    let db = Database::new();
    let mut fork = db.fork();
    let addr = fork.resolve(&IndexAddress::from_root("name"), IndexType::Entry).unwrap();
    let mut entry: Entry<'_, u64> = Entry::new(fork.view(&addr));
    assert_eq!(entry.get(), None);
    assert!(!entry.has_value());
    entry.set(10);
    assert_eq!(entry.get(), Some(10));
    assert!(entry.has_value());
    assert_eq!(entry.swap(20), Some(10));
    assert_eq!(entry.get(), Some(20));
    assert_eq!(entry.take(), Some(20));
    assert_eq!(entry.get(), None);
    assert_eq!(entry.take(), None);
    entry.set(30);
    entry.remove();
    assert_eq!(entry.get(), None);
    fork.release(entry.into_view());
}

#[test]
fn codecs_round_trip() {
    for x in [0u64, 1, 255, 256, u64::MAX, 0x0102_0304_0506_0708] {
        let b = x.to_bytes();
        assert_eq!(b.len(), 8);
        assert_eq!(<u64 as BinaryValue>::from_bytes(&b), Some(x));
        assert_eq!(<u64 as BinaryKey>::read(&x.key_bytes()), Some(x));
    }
    assert_eq!(0x0102_0304_0506_0708u64.to_bytes(), vec![1, 2, 3, 4, 5, 6, 7, 8]);
    assert_eq!(7u32.key_bytes(), vec![0, 0, 0, 7]);
    assert_eq!(<u32 as BinaryKey>::read(&[0, 0, 1, 0]), Some(256));
    assert_eq!(<u8 as BinaryValue>::from_bytes(&[9]), Some(9));
    assert_eq!(<u64 as BinaryValue>::from_bytes(&[1, 2]), None);
    let t = StoredTransaction::new(-2, -3);
    let b = t.to_bytes();
    assert_eq!(b.len(), 12);
    assert_eq!(StoredTransaction::from_bytes(&b), Some(t));
    assert_eq!(StoredTransaction::new(1, 2).to_bytes(), vec![0, 0, 0, 0, 0, 0, 0, 1, 0, 0, 0, 2]);
}

#[test]
fn changes_iter_skips_deletes() {
    let mut ch = ViewChanges::new();
    ch.put(vec![1], vec![10]);
    ch.remove(vec![2]);
    ch.remove(vec![3]);
    ch.put(vec![4], vec![40]);
    let mut it = ChangesIter::new(&ch, &[]);
    assert_eq!(it.peek(), Some((&vec![1u8], &vec![10u8])));
    assert_eq!(it.next(), Some((&vec![1u8], &vec![10u8])));
    assert_eq!(it.peek(), Some((&vec![4u8], &vec![40u8])));
    assert_eq!(it.next(), Some((&vec![4u8], &vec![40u8])));
    assert_eq!(it.peek(), None);
    assert_eq!(it.next(), None);
    let mut from_three = ChangesIter::new(&ch, &[3]);
    assert_eq!(from_three.next(), Some((&vec![4u8], &vec![40u8])));
    assert_eq!(ch.get(&[2]), Ok(None));
    assert_eq!(ch.get(&[9]), Err(()));
    ch.clear();
    assert!(ch.is_cleared());
    assert_eq!(ch.get(&[9]), Ok(None));
}

#[test]
fn iter_without_value_type_reads_keys() {
    let db = Database::new();
    let mut fork = db.fork();
    let addr = fork.resolve(&IndexAddress::from_root("s"), IndexType::KeySet).unwrap();
    let mut view = fork.view(&addr);
    view.put(&7u64, 1u8);
    view.put(&3u64, 1u8);
    let mut keys = view.iter::<(), u64, u64>(&()).drop_value_type();
    assert_eq!(keys.next_bytes().map(|(k, _)| k), Some(3u64.key_bytes()));
    assert_eq!(keys.next_bytes().map(|(k, _)| k), Some(7u64.key_bytes()));
    assert_eq!(keys.next_bytes(), None);
    fork.release(view);
}

#[test]
fn iter_with_dropped_types_reads_on() {
    let db = Database::new();
    let mut fork = db.fork();
    let addr = fork.resolve(&IndexAddress::from_root("m"), IndexType::KeyMap).unwrap();
    let mut view = fork.view(&addr);
    view.put(&2u64, 20u64);
    view.put(&1u64, 10u64);
    let mut values_only = view.iter::<(), u64, u64>(&()).drop_key_type();
    assert_eq!(values_only.next(), Some(((), 10)));
    assert_eq!(values_only.next(), Some(((), 20)));
    assert_eq!(values_only.next(), None);
    let mut keys_only = view.iter::<(), u64, u64>(&()).drop_value_type();
    assert_eq!(keys_only.next(), Some((1, ())));
    assert_eq!(keys_only.next(), Some((2, ())));
    assert_eq!(keys_only.next(), None);
    fork.release(view);
}

#[test]
fn two_iterators_over_one_list_are_independent() {
    let db = Database::new();
    let mut fork = db.fork();
    let addr = fork.resolve(&IndexAddress::from_root("list"), IndexType::List).unwrap();
    let mut view = fork.view(&addr);
    let xs = [5u64, 4, 3, 2, 1];
    for (i, x) in xs.iter().enumerate() {
        view.put(&(i as u64), *x);
    }
    let mut it1 = view.iter::<(), (), u64>(&());
    let mut it2 = view.iter::<(), (), u64>(&());
    let mut got1 = Vec::new();
    let mut got2 = Vec::new();
    for _ in 0..2 {
        got1.push(it1.next().unwrap().1);
    }
    for _ in 0..5 {
        got2.push(it2.next().unwrap().1);
    }
    for _ in 0..3 {
        got1.push(it1.next().unwrap().1);
    }
    assert_eq!(got1, xs.to_vec());
    assert_eq!(got2, xs.to_vec());
    assert_eq!(it1.next(), None);
    assert_eq!(it2.next(), None);
    let mut rest = view.iter_from::<(), u64, u64, u64>(&(), &3u64);
    assert_eq!(rest.next(), Some((3, 2)));
    assert_eq!(rest.next(), Some((4, 1)));
    assert_eq!(rest.next(), None);
    fork.release(view);
}
