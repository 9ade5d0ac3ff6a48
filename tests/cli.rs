use matterdb::address::IndexAddress;
use matterdb::cli::{CLIInterface, Error, MempoolSchema, StoredTransaction};
use matterdb::db::{Database, IndexType};

#[test]
fn list_cli() {
    let db = Database::new();
    let mut fork = db.fork();
    let _schema = MempoolSchema::new(&mut fork);
}

fn sample_db() -> Database {
    let mut db = Database::new();
    let mut fork = db.fork();
    let ba = fork.resolve(&IndexAddress::from_root("ba"), IndexType::List).unwrap();
    let mut view = fork.view(&ba);
    for i in 0..4u64 {
        view.put(&i, 10u8 + i as u8);
    }
    fork.release(view);
    fork.resolve(&IndexAddress::from_root("bar_"), IndexType::Entry).unwrap();
    db.merge(fork.into_patch());
    db
}

#[test]
fn cli_lists_a_page_of_a_list() {
    let db = sample_db();
    let cli = CLIInterface::new(db.snapshot(), None);
    assert_eq!(cli.indexes().len(), 2);
    assert_eq!(cli.list::<u8>("ba", 10, 0), Ok(vec![10, 11, 12, 13]));
    assert_eq!(cli.list::<u8>("ba", 2, 1), Ok(vec![11, 12]));
    assert_eq!(cli.list::<u8>("ba", 5, 9), Ok(vec![]));
    assert_eq!(cli.list::<u8>("ba", usize::MAX, 3), Ok(vec![13]));
    assert_eq!(cli.get_from_list_by_index::<u8>("ba", 2), Ok(Some(12)));
    assert_eq!(cli.get_from_list_by_index::<u8>("ba", 7), Ok(None));
}

#[test]
fn cli_reports_wrong_type_and_missing_index() {
    let db = sample_db();
    let cli = CLIInterface::new(db.snapshot(), None);
    assert_eq!(cli.list::<u8>("bar_", 10, 0), Err(Error::WrongType));
    assert_eq!(cli.list::<u8>("baz", 10, 0), Err(Error::IndexNotFound));
    assert_eq!(cli.get_from_list_by_index::<u8>("baz", 0), Err(Error::IndexNotFound));
    assert_eq!(Error::WrongType.message(), "Wrong type of index for this operations");
    assert_eq!(Error::IndexNotFound.message(), "Index not found");
}

#[test]
fn cli_filters_by_sub_prefix() {
    let db = sample_db();
    let cli = CLIInterface::new(db.snapshot(), Some("bar"));
    assert_eq!(cli.indexes(), &vec![(b"bar_".to_vec(), IndexType::Entry)]);
}

#[test]
fn mempool_schema_stores_transactions() {
    let mut db = Database::new();
    let mut fork = db.fork();
    let mut schema = MempoolSchema::new(&mut fork).unwrap();
    schema.transactions.put(&1u64, StoredTransaction::new(5, 6));
    assert_eq!(schema.transactions.get::<u64, StoredTransaction>(&1), Some(StoredTransaction::new(5, 6)));
    fork.release(schema.transactions);
    db.merge(fork.into_patch());

    let mut fork = db.fork();
    let schema = MempoolSchema::new(&mut fork).unwrap();
    assert_eq!(schema.transactions.get::<u64, StoredTransaction>(&1), Some(StoredTransaction::new(5, 6)));
    fork.release(schema.transactions);
    let wrong = fork.resolve(&IndexAddress::from_root("mempool"), IndexType::List);
    assert!(wrong.is_err());
}
