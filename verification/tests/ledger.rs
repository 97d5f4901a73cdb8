use day_ledger::date::check_date;
use day_ledger::storage::{Ledger, StorageError, Transaction, TransactionInput};

fn input(description: &str, amount: &str, kind: &str, date: &str) -> TransactionInput {
    TransactionInput {
        description: description.to_owned(),
        amount: amount.to_owned(),
        transaction_type: kind.to_owned(),
        date: date.to_owned(),
    }
}

fn days_of(l: &Ledger) -> Vec<String> {
    l.get_days().into_iter().map(|d| d.date).collect()
}

#[test]
fn example_scenario() {
    let mut l = Ledger::new();
    let id_a = l.add_transaction(input("A", "10.00", "expense", "01.06.2024"));
    assert_eq!(id_a, Ok(1));
    assert_eq!(days_of(&l), vec!["01.06.2024".to_owned()]);
    let id_b = l.add_transaction(input("B", "5.00", "income", "01.06.2024"));
    assert_eq!(id_b, Ok(2));
    assert_eq!(days_of(&l), vec!["01.06.2024".to_owned()]);
    assert!(l.delete_transaction(1).is_ok());
    assert_eq!(days_of(&l), vec!["01.06.2024".to_owned()]);
    assert!(l.delete_transaction(2).is_ok());
    assert_eq!(days_of(&l), Vec::<String>::new());
}

#[test]
fn two_transactions_one_marker() {
    let mut l = Ledger::new();
    l.add_transaction(input("rent", "800.00", "expense", "03.01.2025")).unwrap();
    l.add_transaction(input("salary", "2000.00", "income", "03.01.2025")).unwrap();
    assert_eq!(days_of(&l), vec!["03.01.2025".to_owned()]);
    assert_eq!(l.get_transactions().len(), 2);
}

#[test]
fn day_retired_with_last_transaction() {
    let mut l = Ledger::new();
    let id = l.add_transaction(input("x", "1.00", "expense", "15.03.2024")).unwrap();
    assert!(l.delete_transaction(id).is_ok());
    assert_eq!(days_of(&l), Vec::<String>::new());
    assert_eq!(l.get_transactions().len(), 0);
}

#[test]
fn day_kept_while_one_remains() {
    let mut l = Ledger::new();
    let first = l.add_transaction(input("x", "1.00", "expense", "15.03.2024")).unwrap();
    l.add_transaction(input("y", "2.00", "income", "15.03.2024")).unwrap();
    assert!(l.delete_transaction(first).is_ok());
    assert_eq!(days_of(&l), vec!["15.03.2024".to_owned()]);
}

#[test]
fn update_migrates_day_marker() {
    let mut l = Ledger::new();
    let id = l.add_transaction(input("x", "1.00", "expense", "10.02.2024")).unwrap();
    let updated = Transaction {
        id,
        description: "x".to_owned(),
        amount: "1.00".to_owned(),
        transaction_type: "expense".to_owned(),
        date: "11.02.2024".to_owned(),
    };
    assert!(l.update_transaction(updated).is_ok());
    assert_eq!(days_of(&l), vec!["11.02.2024".to_owned()]);
    let stored = l.get_transactions();
    assert_eq!(stored.len(), 1);
    assert_eq!(stored[0].date, "11.02.2024");
}

#[test]
fn update_keeps_shared_old_day() {
    let mut l = Ledger::new();
    let id = l.add_transaction(input("x", "1.00", "expense", "10.02.2024")).unwrap();
    l.add_transaction(input("y", "2.00", "income", "10.02.2024")).unwrap();
    let updated = Transaction {
        id,
        description: "x".to_owned(),
        amount: "1.00".to_owned(),
        transaction_type: "expense".to_owned(),
        date: "11.02.2024".to_owned(),
    };
    assert!(l.update_transaction(updated).is_ok());
    let mut days = days_of(&l);
    days.sort();
    assert_eq!(days, vec!["10.02.2024".to_owned(), "11.02.2024".to_owned()]);
}

#[test]
fn update_without_date_change_leaves_days_alone() {
    let mut l = Ledger::new();
    let id = l.add_transaction(input("x", "1.00", "expense", "10.02.2024")).unwrap();
    l.add_transaction(input("y", "2.00", "income", "12.02.2024")).unwrap();
    let before = days_of(&l);
    let updated = Transaction {
        id,
        description: "renamed".to_owned(),
        amount: "3.50".to_owned(),
        transaction_type: "income".to_owned(),
        date: "10.02.2024".to_owned(),
    };
    assert!(l.update_transaction(updated).is_ok());
    assert_eq!(days_of(&l), before);
    let stored = l.get_transactions();
    assert_eq!(stored[0].description, "renamed");
    assert_eq!(stored[0].amount, "3.50");
    assert_eq!(stored[0].transaction_type, "income");
}

#[test]
fn update_missing_id_is_not_found() {
    let mut l = Ledger::new();
    l.add_transaction(input("x", "1.00", "expense", "10.02.2024")).unwrap();
    let ghostly = Transaction {
        id: 77,
        description: "nothing".to_owned(),
        amount: "0.00".to_owned(),
        transaction_type: "expense".to_owned(),
        date: "10.02.2024".to_owned(),
    };
    assert_eq!(l.update_transaction(ghostly), Err(StorageError::NotFound));
    assert_eq!(l.get_transactions().len(), 1);
    assert_eq!(days_of(&l), vec!["10.02.2024".to_owned()]);
}

#[test]
fn delete_missing_id_is_not_found() {
    let mut l = Ledger::new();
    l.add_transaction(input("x", "1.00", "expense", "10.02.2024")).unwrap();
    assert_eq!(l.delete_transaction(5), Err(StorageError::NotFound));
    assert_eq!(l.get_transactions().len(), 1);
    assert_eq!(days_of(&l), vec!["10.02.2024".to_owned()]);
}

#[test]
fn add_rejects_malformed_date() {
    let mut l = Ledger::new();
    let r = l.add_transaction(input("x", "1.00", "expense", "2024-06-01"));
    assert_eq!(r, Err(StorageError::InvalidDateFormat));
    assert_eq!(l.get_transactions().len(), 0);
    assert_eq!(days_of(&l), Vec::<String>::new());
}

#[test]
fn update_rejects_malformed_date() {
    let mut l = Ledger::new();
    let id = l.add_transaction(input("x", "1.00", "expense", "10.02.2024")).unwrap();
    let bad = Transaction {
        id,
        description: "x".to_owned(),
        amount: "1.00".to_owned(),
        transaction_type: "expense".to_owned(),
        date: "31.02.2024".to_owned(),
    };
    assert_eq!(l.update_transaction(bad), Err(StorageError::InvalidDateFormat));
    let stored = l.get_transactions();
    assert_eq!(stored[0].date, "10.02.2024");
    assert_eq!(days_of(&l), vec!["10.02.2024".to_owned()]);
}

#[test]
fn missing_id_beats_bad_date() {
    let mut l = Ledger::new();
    let bad = Transaction {
        id: 9,
        description: "x".to_owned(),
        amount: "1.00".to_owned(),
        transaction_type: "expense".to_owned(),
        date: "99.99.9999".to_owned(),
    };
    assert_eq!(l.update_transaction(bad), Err(StorageError::NotFound));
}

#[test]
fn ids_are_sequential_and_not_reused_within_a_run() {
    let mut l = Ledger::new();
    assert_eq!(l.add_transaction(input("a", "1.00", "expense", "01.01.2024")), Ok(1));
    assert_eq!(l.add_transaction(input("b", "1.00", "expense", "02.01.2024")), Ok(2));
    assert!(l.delete_transaction(2).is_ok());
    assert_eq!(l.add_transaction(input("c", "1.00", "expense", "03.01.2024")), Ok(3));
}

#[test]
fn date_grammar() {
    assert!(check_date("01.06.2024"));
    assert!(check_date("31.12.9999"));
    assert!(check_date("01.01.0000"));
    assert!(check_date("29.02.2024"));
    assert!(check_date("29.02.2000"));
    assert!(check_date("31.01.2024"));
    assert!(check_date("30.04.2024"));
    assert!(!check_date("29.02.2023"));
    assert!(!check_date("29.02.1900"));
    assert!(!check_date("30.02.2024"));
    assert!(!check_date("31.04.2024"));
    assert!(!check_date("00.06.2024"));
    assert!(!check_date("13.13.2024"));
    assert!(!check_date("00.00.0000"));
    assert!(!check_date("1.6.2024"));
    assert!(!check_date("01/06/2024"));
    assert!(!check_date("01.06.24"));
    assert!(!check_date(""));
    assert!(!check_date("01.06.2024 "));
    assert!(!check_date("aa.bb.cccc"));
    assert!(!check_date("\u{FF10}1.06.2024"));
}

#[test]
fn from_rows_rebuilds_day_index() {
    let rows = vec![
        Transaction {
            id: 4,
            description: "a".to_owned(),
            amount: "1.00".to_owned(),
            transaction_type: "expense".to_owned(),
            date: "01.06.2024".to_owned(),
        },
        Transaction {
            id: 2,
            description: "b".to_owned(),
            amount: "2.00".to_owned(),
            transaction_type: "income".to_owned(),
            date: "02.06.2024".to_owned(),
        },
        Transaction {
            id: 9,
            description: "c".to_owned(),
            amount: "3.00".to_owned(),
            transaction_type: "expense".to_owned(),
            date: "01.06.2024".to_owned(),
        },
    ];
    let mut l = Ledger::from_rows(rows).unwrap();
    let mut days = days_of(&l);
    days.sort();
    assert_eq!(days, vec!["01.06.2024".to_owned(), "02.06.2024".to_owned()]);
    assert_eq!(l.get_transactions().len(), 3);
    // the next id continues past the largest stored id
    assert_eq!(l.add_transaction(input("d", "4.00", "expense", "03.06.2024")), Ok(10));
}

#[test]
fn from_rows_rejects_duplicate_ids() {
    let row = Transaction {
        id: 1,
        description: "a".to_owned(),
        amount: "1.00".to_owned(),
        transaction_type: "expense".to_owned(),
        date: "01.06.2024".to_owned(),
    };
    let rows = vec![row.clone(), row];
    assert_eq!(Ledger::from_rows(rows).err(), Some(StorageError::StoreFailure));
}

#[test]
fn from_rows_rejects_bad_rows() {
    let bad_date = Transaction {
        id: 1,
        description: "a".to_owned(),
        amount: "1.00".to_owned(),
        transaction_type: "expense".to_owned(),
        date: "June 1st".to_owned(),
    };
    assert_eq!(Ledger::from_rows(vec![bad_date]).err(), Some(StorageError::StoreFailure));
    let bad_id = Transaction {
        id: 0,
        description: "a".to_owned(),
        amount: "1.00".to_owned(),
        transaction_type: "expense".to_owned(),
        date: "01.06.2024".to_owned(),
    };
    assert_eq!(Ledger::from_rows(vec![bad_id]).err(), Some(StorageError::StoreFailure));
}

#[test]
fn add_fails_when_id_space_is_exhausted() {
    let near_ceiling = Transaction {
        id: i32::MAX - 1,
        description: "a".to_owned(),
        amount: "1.00".to_owned(),
        transaction_type: "expense".to_owned(),
        date: "01.06.2024".to_owned(),
    };
    let mut l = Ledger::from_rows(vec![near_ceiling]).unwrap();
    let r = l.add_transaction(input("b", "1.00", "expense", "02.06.2024"));
    assert_eq!(r, Err(StorageError::StoreFailure));
    assert_eq!(l.get_transactions().len(), 1);
}

#[test]
fn from_rows_accepts_empty_store() {
    let l = Ledger::from_rows(Vec::new()).unwrap();
    assert_eq!(l.get_transactions().len(), 0);
    assert_eq!(days_of(&l), Vec::<String>::new());
}

#[test]
fn stored_fields_come_back_unchanged() {
    let mut l = Ledger::new();
    l.add_transaction(input("groceries", "-23.45", "expense", "05.07.2025")).unwrap();
    let stored = l.get_transactions();
    assert_eq!(stored.len(), 1);
    assert_eq!(stored[0].id, 1);
    assert_eq!(stored[0].description, "groceries");
    assert_eq!(stored[0].amount, "-23.45");
    assert_eq!(stored[0].transaction_type, "expense");
    assert_eq!(stored[0].date, "05.07.2025");
}
