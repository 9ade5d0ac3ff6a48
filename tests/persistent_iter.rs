use matterdb::address::{IndexAddress, ResolvedAddress};
use matterdb::codec::BinaryValue;
use matterdb::db::{Database, Fork, IndexType};
use matterdb::persistent::Scratchpad;

fn values(entries: &[(Vec<u8>, Vec<u8>)]) -> Vec<u64> {
    entries
        .iter()
        .map(|(_, v)| <u64 as BinaryValue>::from_bytes(v).unwrap())
        .collect()
}

fn open(fork: &mut Fork<'_>, name: &str, group: Option<u32>, ty: IndexType) -> ResolvedAddress {
    let mut address = IndexAddress::from_root(name);
    if let Some(g) = group {
        address = address.append_key(&g);
    }
    fork.resolve(&address, ty).unwrap()
}

fn fill(fork: &mut Fork<'_>, address: &ResolvedAddress, items: &[(u64, u64)]) {
    let mut view = fork.view(address);
    for (k, v) in items {
        view.put(k, *v);
    }
    fork.release(view);
}

#[test]
fn map_cursor_across_commits() {
    let mut db = Database::new();
    let mut fork = db.fork();
    let m = open(&mut fork, "m", None, IndexType::KeyMap);
    fill(&mut fork, &m, &[(1, 10), (2, 20), (3, 30)]);
    db.merge(fork.into_patch());

    let scratchpad = Scratchpad::new("iters");
    let mut fork = db.fork();
    let m = open(&mut fork, "m", None, IndexType::KeyMap);
    let first = scratchpad.advance(&mut fork, "c1", &m, 2);
    assert_eq!(values(&first), vec![10, 20]);
    db.merge(fork.into_patch());

    let mut fork = db.fork();
    let second = scratchpad.advance(&mut fork, "c1", &m, 1);
    assert_eq!(values(&second), vec![30]);
    let third = scratchpad.advance(&mut fork, "c1", &m, 1);
    assert_eq!(values(&third), Vec::<u64>::new());

    let mut all = values(&first);
    all.extend(values(&second));
    assert_eq!(all, vec![10, 20, 30]);
}

#[test]
fn two_cursors_over_one_list() {
    let mut db = Database::new();
    let mut fork = db.fork();
    let list = open(&mut fork, "list", None, IndexType::List);
    let items: Vec<(u64, u64)> = (0..5).map(|i| (i, 100 + i)).collect();
    fill(&mut fork, &list, &items);
    db.merge(fork.into_patch());

    let scratchpad = Scratchpad::new("iters");
    let mut fork = db.fork();
    let a = scratchpad.advance(&mut fork, "c1", &list, 2);
    let b = scratchpad.advance(&mut fork, "c2", &list, 5);
    let c = scratchpad.advance(&mut fork, "c1", &list, 3);
    assert_eq!(values(&a), vec![100, 101]);
    assert_eq!(values(&b), vec![100, 101, 102, 103, 104]);
    assert_eq!(values(&c), vec![102, 103, 104]);
}

#[test]
fn cursor_progress_dropped_with_transaction() {
    let mut db = Database::new();
    let mut fork = db.fork();
    let list = open(&mut fork, "list", None, IndexType::List);
    fill(&mut fork, &list, &[(0, 1), (1, 2), (2, 3)]);
    db.merge(fork.into_patch());

    let scratchpad = Scratchpad::new("s");
    {
        let mut fork = db.fork();
        let a = scratchpad.advance(&mut fork, "c", &list, 2);
        assert_eq!(values(&a), vec![1, 2]);
        // The fork is dropped: the advance is not kept.
    }
    let mut fork = db.fork();
    let again = scratchpad.advance(&mut fork, "c", &list, 2);
    assert_eq!(values(&again), vec![1, 2]);
}

#[test]
fn rollback_resets_cursors() {
    let mut db = Database::new();
    let mut fork = db.fork();
    let list = open(&mut fork, "list", None, IndexType::List);
    fill(&mut fork, &list, &[(0, 7), (1, 8)]);
    let scratchpad = Scratchpad::new("s");
    let a = scratchpad.advance(&mut fork, "c", &list, 1);
    assert_eq!(values(&a), vec![7]);
    scratchpad.rollback(&mut fork);
    let b = scratchpad.advance(&mut fork, "c", &list, 5);
    assert_eq!(values(&b), vec![7, 8]);
    db.merge(fork.into_patch());
}

#[test]
fn cursor_concatenation_is_full_enumeration() {
    let mut db = Database::new();
    let mut fork = db.fork();
    let map = open(&mut fork, "map", Some(1), IndexType::KeyMap);
    let items: Vec<(u64, u64)> = (0..40).map(|i| ((i * 37) % 101, i)).collect();
    fill(&mut fork, &map, &items);
    db.merge(fork.into_patch());

    let mut sorted = items.clone();
    sorted.sort();
    let expected: Vec<u64> = sorted.iter().map(|(_, v)| *v).collect();

    let scratchpad = Scratchpad::new("iters");
    let mut got = Vec::new();
    for (round, n) in [3usize, 1, 7, 5, 9, 2, 30].iter().enumerate() {
        let mut fork = db.fork();
        got.extend(values(&scratchpad.advance(&mut fork, "c", &map, *n)));
        if round % 2 == 1 {
            got.extend(values(&scratchpad.advance(&mut fork, "c", &map, 1)));
        }
        db.merge(fork.into_patch());
    }
    assert_eq!(got, expected);
}

#[test]
fn cursors_of_other_collections_are_separate() {
    let mut db = Database::new();
    let mut fork = db.fork();
    let l1 = open(&mut fork, "list", Some(1), IndexType::List);
    let l3 = open(&mut fork, "list", Some(3), IndexType::SparseList);
    fill(&mut fork, &l1, &[(0, 1), (1, 2), (2, 3)]);
    fill(&mut fork, &l3, &[(5, 50), (9, 90)]);
    db.merge(fork.into_patch());

    let scratchpad = Scratchpad::new("iters");
    let mut fork = db.fork();
    assert_eq!(values(&scratchpad.advance(&mut fork, "a", &l1, 1)), vec![1]);
    assert_eq!(values(&scratchpad.advance(&mut fork, "b", &l3, 1)), vec![50]);
    assert_eq!(values(&scratchpad.advance(&mut fork, "a", &l1, 5)), vec![2, 3]);
    assert_eq!(values(&scratchpad.advance(&mut fork, "b", &l3, 5)), vec![90]);
}

const COLLECTIONS: &[(&str, Option<u32>, IndexType)] = &[
    ("list", None, IndexType::List),
    ("list", Some(1), IndexType::List),
    ("sparse_list", None, IndexType::SparseList),
    ("list", Some(3), IndexType::SparseList),
    ("map", None, IndexType::KeyMap),
    ("map", Some(1), IndexType::KeyMap),
    ("key_set", None, IndexType::KeySet),
    ("set", Some(1), IndexType::KeySet),
];

fn fill_collections(db: &mut Database) {
    let mut fork = db.fork();
    for (i, &(name, group, ty)) in COLLECTIONS.iter().enumerate() {
        let address = open(&mut fork, name, group, ty);
        let items: Vec<(u64, u64)> = (0..25u64).map(|k| ((k * 7 + i as u64) % 256, k)).collect();
        fill(&mut fork, &address, &items);
    }
    db.merge(fork.into_patch());
}

#[test]
fn index_pool() {
    let mut db = Database::new();
    fill_collections(&mut db);
    let mut fork = db.fork();
    let data: Vec<(String, IndexType)> = fork
        .index_list(None)
        .into_iter()
        .map(|(name, ty)| (String::from_utf8(name).unwrap(), ty))
        .collect();
    let expected_result = vec![
        ("key_set".to_string(), IndexType::KeySet),
        ("list".to_string(), IndexType::List),
        ("list\u{0}\u{0}\u{0}\u{0}\u{1}".to_string(), IndexType::List),
        ("list\u{0}\u{0}\u{0}\u{0}\u{3}".to_string(), IndexType::SparseList),
        ("map".to_string(), IndexType::KeyMap),
        ("map\u{0}\u{0}\u{0}\u{0}\u{1}".to_string(), IndexType::KeyMap),
        ("set\u{0}\u{0}\u{0}\u{0}\u{1}".to_string(), IndexType::KeySet),
        ("sparse_list".to_string(), IndexType::SparseList),
    ];
    assert_eq!(data, expected_result);
}

#[derive(Debug, Clone, Copy)]
enum Action {
    CreateIter(usize),
    AdvanceIter { index: usize, amount: usize },
    MergeFork,
}

struct IterState {
    name: String,
    collection: usize,
    items: Vec<u64>,
    position: usize,
}

fn collection_address(fork: &mut Fork<'_>, collection: usize) -> ResolvedAddress {
    let (name, group, ty) = COLLECTIONS[collection];
    open(fork, name, group, ty)
}

fn check(fork: &mut Fork<'_>, state: &IterState) {
    let address = collection_address(fork, state.collection);
    let view = fork.view(&address);
    let mut it = view.iter::<(), (), u64>(&());
    let mut expected = Vec::new();
    while expected.len() < state.position {
        match it.next() {
            Some((_, v)) => expected.push(v),
            None => break,
        }
    }
    fork.release(view);
    assert_eq!(expected, state.items);
}

fn apply_actions(db: &mut Database, actions: &[Action]) {
    let mut fork = db.fork();
    let mut iters: Vec<IterState> = vec![];
    let scratchpad = Scratchpad::new("iters");
    for action in actions {
        match *action {
            Action::CreateIter(collection) => {
                iters.push(IterState { name: format!("iter{}", iters.len()), collection, items: vec![], position: 0 });
            }
            Action::AdvanceIter { index, amount } => {
                if iters.is_empty() {
                    continue;
                }
                let len = iters.len();
                let state = &mut iters[index % len];
                state.position += amount;
                let address = collection_address(&mut fork, state.collection);
                let out = scratchpad.advance(&mut fork, &state.name, &address, amount);
                state.items.extend(values(&out));
                check(&mut fork, state);
            }
            Action::MergeFork => {
                db.merge(fork.into_patch());
                fork = db.fork();
            }
        }
    }
    for state in &iters {
        check(&mut fork, state);
    }
}

fn clear_scratchpad(db: &mut Database) {
    let mut fork = db.fork();
    Scratchpad::new("iters").rollback(&mut fork);
    db.merge(fork.into_patch());
}

fn action_sequence(n_collections: usize, seed: usize) -> Vec<Action> {
    let mut actions = Vec::new();
    let mut x = seed;
    for _ in 0..45 {
        x = (x * 1103515245 + 12345) % 2147483648;
        let pick = x % 10;
        let action = if pick < 4 {
            Action::CreateIter((x / 10) % n_collections)
        } else if pick < 9 {
            Action::AdvanceIter { index: x / 16, amount: 1 + (x / 7) % 9 }
        } else {
            Action::MergeFork
        };
        actions.push(action);
    }
    actions
}

#[test]
fn persistent_iters() {
    let mut db = Database::new();
    fill_collections(&mut db);
    for seed in 1..6 {
        apply_actions(&mut db, &action_sequence(COLLECTIONS.len(), seed));
        clear_scratchpad(&mut db);
    }
}

#[test]
fn persistent_iters_over_single_collection() {
    let mut db = Database::new();
    fill_collections(&mut db);
    for seed in 1..6 {
        apply_actions(&mut db, &action_sequence(1, seed));
        clear_scratchpad(&mut db);
    }
}
