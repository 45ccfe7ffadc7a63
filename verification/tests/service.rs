use bookkeeping::codec::decode;
use bookkeeping::mirror::Mirror;
use bookkeeping::records::{AmountInput, CreateTransaction, Transaction, UpdateTransaction};
use bookkeeping::store::{ServiceError, Store, UserSummary};

fn create_req(user: &[u8], item: &[u8], amount: AmountInput, ts: Option<u64>) -> CreateTransaction {
    CreateTransaction {
        user: user.to_vec(),
        item: item.to_vec(),
        amount,
        timestamp: ts,
    }
}

fn keep_all() -> UpdateTransaction {
    UpdateTransaction {
        user: None,
        item: None,
        amount: None,
        timestamp: None,
    }
}

fn same_transaction(a: &Transaction, b: &Transaction) -> bool {
    a.id == b.id
        && a.user == b.user
        && a.item == b.item
        && a.amount == b.amount
        && a.timestamp == b.timestamp
}

#[test]
fn round_trip_reproduces_records() {
    let mut store = Store::new();
    store
        .create_transaction(
            create_req(b"alice", b"book", AmountInput::Finite(950), Some(100)),
            0,
        )
        .unwrap();
    store
        .create_transaction(
            create_req(b"bob", b"pen \"fancy\" \\ deluxe", AmountInput::Finite(-25), Some(200)),
            0,
        )
        .unwrap();
    store
        .create_transaction(
            create_req(b"carol", b"line\nbreak\ttab", AmountInput::Finite(0), None),
            4242,
        )
        .unwrap();
    let mirror = Mirror::new().persist(&store);
    let loaded = mirror.load();
    let before = store.list_transactions();
    let after = loaded.list_transactions();
    assert_eq!(before.len(), after.len());
    for (a, b) in before.iter().zip(after.iter()) {
        assert!(same_transaction(a, b));
    }
}

#[test]
fn load_of_absent_or_corrupt_mirror_is_empty() {
    let empty = Mirror::new().load();
    assert_eq!(empty.list_transactions().len(), 0);
    let corrupt = Store::from_bytes(&b"not json at all".to_vec());
    assert_eq!(corrupt.list_transactions().len(), 0);
    let truncated = Store::from_bytes(&b"[{\"id\":\"00".to_vec());
    assert_eq!(truncated.list_transactions().len(), 0);
}

#[test]
fn encoding_is_exact() {
    let store = Store {
        transactions: vec![Transaction {
            id: 1,
            user: b"alice".to_vec(),
            item: b"book".to_vec(),
            amount: -950,
            timestamp: 1700000000,
        }],
    };
    let bytes = store.snapshot_bytes();
    let text = String::from_utf8(bytes).unwrap();
    assert_eq!(
        text,
        "[{\"id\":\"00000000000000000000000000000001\",\"user\":\"alice\",\"item\":\"book\",\
         \"amount\":-950,\"timestamp\":1700000000}]"
    );
}

#[test]
fn empty_store_encodes_as_empty_array() {
    let store = Store::new();
    let bytes = store.snapshot_bytes();
    assert_eq!(String::from_utf8(bytes).unwrap(), "[]");
}

#[test]
fn decode_reads_back_exact_fields() {
    let text = "[{\"id\":\"000000000000000000000000000000ff\",\"user\":\"a b\",\"item\":\"x\",\
                \"amount\":12,\"timestamp\":7}]";
    let parsed = decode(&text.as_bytes().to_vec()).unwrap();
    assert_eq!(parsed.len(), 1);
    assert_eq!(parsed[0].id, 0xff);
    assert_eq!(parsed[0].user, b"a b".to_vec());
    assert_eq!(parsed[0].item, b"x".to_vec());
    assert_eq!(parsed[0].amount, 12);
    assert_eq!(parsed[0].timestamp, 7);
}

#[test]
fn created_ids_are_pairwise_distinct() {
    let mut store = Store::new();
    for k in 0..20u64 {
        store
            .create_transaction(
                create_req(b"u", b"i", AmountInput::Finite(k as i64), Some(k)),
                0,
            )
            .unwrap();
    }
    let all = store.list_transactions();
    for p in 0..all.len() {
        for q in p + 1..all.len() {
            assert_ne!(all[p].id, all[q].id);
        }
    }
}

#[test]
fn delete_twice_reports_not_found_second_time() {
    let mut store = Store::new();
    let t = store
        .create_transaction(create_req(b"u", b"i", AmountInput::Finite(1), Some(1)), 0)
        .unwrap();
    store
        .create_transaction(create_req(b"v", b"j", AmountInput::Finite(2), Some(2)), 0)
        .unwrap();
    let len_before = store.list_transactions().len();
    assert!(store.delete_transaction(t.id).is_ok());
    assert_eq!(store.delete_transaction(t.id), Err(ServiceError::NotFound));
    let len_after = store.list_transactions().len();
    assert_eq!(len_before - 1, len_after);
}

#[test]
fn delete_missing_id_leaves_collection_unchanged() {
    let mut store = Store::new();
    store
        .create_transaction(create_req(b"u", b"i", AmountInput::Finite(1), Some(1)), 0)
        .unwrap();
    assert_eq!(store.delete_transaction(12345), Err(ServiceError::NotFound));
    assert_eq!(store.list_transactions().len(), 1);
}

#[test]
fn interrupted_persist_leaves_target_untouched() {
    let mut store = Store::new();
    store
        .create_transaction(create_req(b"u", b"i", AmountInput::Finite(1), Some(1)), 0)
        .unwrap();
    let mirror = Mirror::new().persist(&store);
    let target_before = mirror.main.clone().unwrap();

    store
        .create_transaction(create_req(b"v", b"j", AmountInput::Finite(2), Some(2)), 0)
        .unwrap();
    // the crash: the new bytes reach the temporary file, but the rename
    // never happens
    let interrupted = mirror.write_temp(store.snapshot_bytes());
    assert_eq!(interrupted.main.unwrap(), target_before);
}

#[test]
fn summary_sums_exactly_the_matching_amounts() {
    let mut store = Store::new();
    store
        .create_transaction(create_req(b"alice", b"book", AmountInput::Finite(950), Some(1)), 0)
        .unwrap();
    store
        .create_transaction(create_req(b"bob", b"pen", AmountInput::Finite(100), Some(2)), 0)
        .unwrap();
    store
        .create_transaction(create_req(b"alice", b"cake", AmountInput::Finite(-50), Some(3)), 0)
        .unwrap();
    let s: UserSummary = store.user_summary(&b"alice".to_vec());
    assert_eq!(s.user, b"alice".to_vec());
    assert_eq!(s.count, 2);
    assert_eq!(s.total_amount, 900);
    assert_eq!(s.transactions.len(), 2);
    assert_eq!(s.transactions[0].item, b"book".to_vec());
    assert_eq!(s.transactions[1].item, b"cake".to_vec());

    let none: UserSummary = store.user_summary(&b"nobody".to_vec());
    assert_eq!(none.count, 0);
    assert_eq!(none.total_amount, 0);
    assert!(none.transactions.is_empty());
}

#[test]
fn summary_matches_exactly_without_trimming() {
    let mut store = Store::new();
    store
        .create_transaction(create_req(b" Alice ", b"book", AmountInput::Finite(10), Some(1)), 0)
        .unwrap();
    // stored under the trimmed name, so the untrimmed query matches nothing
    assert_eq!(store.user_summary(&b" Alice ".to_vec()).count, 0);
    assert_eq!(store.user_summary(&b"Alice".to_vec()).count, 1);
}

#[test]
fn create_rejects_blank_user() {
    let mut store = Store::new();
    let r = store.create_transaction(create_req(b"  ", b"x", AmountInput::Finite(100), None), 0);
    assert!(matches!(r, Err(ServiceError::Validation)));
    assert_eq!(store.list_transactions().len(), 0);
}

#[test]
fn create_rejects_blank_item() {
    let mut store = Store::new();
    let r = store.create_transaction(create_req(b"a", b" \t ", AmountInput::Finite(1), None), 0);
    assert!(matches!(r, Err(ServiceError::Validation)));
}

#[test]
fn create_rejects_non_finite_amount() {
    let mut store = Store::new();
    let nan = f64::NAN;
    let amount = if nan.is_finite() {
        AmountInput::Finite(nan as i64)
    } else {
        AmountInput::NonFinite
    };
    let r = store.create_transaction(create_req(b"a", b"b", amount, None), 0);
    assert!(matches!(r, Err(ServiceError::Validation)));
}

#[test]
fn create_trims_and_stores_names() {
    let mut store = Store::new();
    let t = store
        .create_transaction(create_req(b" Alice ", b" Book ", AmountInput::Finite(950), Some(9)), 0)
        .unwrap();
    assert_eq!(t.user, b"Alice".to_vec());
    assert_eq!(t.item, b"Book".to_vec());
    assert_eq!(t.amount, 950);
    let got = store.get_transaction(t.id).unwrap();
    assert_eq!(got.user, b"Alice".to_vec());
    assert_eq!(got.item, b"Book".to_vec());
}

#[test]
fn create_defaults_timestamp_to_clock_reading() {
    let mut store = Store::new();
    let t = store
        .create_transaction(create_req(b"a", b"b", AmountInput::Finite(1), None), 777)
        .unwrap();
    assert_eq!(t.timestamp, 777);
    let t2 = store
        .create_transaction(create_req(b"a", b"b", AmountInput::Finite(1), Some(5)), 777)
        .unwrap();
    assert_eq!(t2.timestamp, 5);
}

#[test]
fn partial_update_changes_only_the_given_field() {
    let mut store = Store::new();
    let t = store
        .create_transaction(create_req(b"alice", b"book", AmountInput::Finite(10), Some(42)), 0)
        .unwrap();
    let mut req = keep_all();
    req.item = Some(b"NewItem".to_vec());
    let updated = store.update_transaction(t.id, req).unwrap();
    assert_eq!(updated.item, b"NewItem".to_vec());
    assert_eq!(updated.amount, 10);
    assert_eq!(updated.timestamp, 42);
    assert_eq!(updated.user, b"alice".to_vec());
    let got = store.get_transaction(t.id).unwrap();
    assert!(same_transaction(&got, &updated));
}

#[test]
fn update_rejects_blank_field_and_changes_nothing() {
    let mut store = Store::new();
    let t = store
        .create_transaction(create_req(b"alice", b"book", AmountInput::Finite(10), Some(42)), 0)
        .unwrap();
    let mut req = keep_all();
    req.user = Some(b"  ".to_vec());
    req.amount = Some(AmountInput::Finite(99));
    assert!(matches!(
        store.update_transaction(t.id, req),
        Err(ServiceError::Validation)
    ));
    let got = store.get_transaction(t.id).unwrap();
    assert!(same_transaction(&got, &t));
}

#[test]
fn update_missing_id_reports_not_found() {
    let mut store = Store::new();
    assert!(matches!(
        store.update_transaction(1, keep_all()),
        Err(ServiceError::NotFound)
    ));
}

#[test]
fn get_missing_id_reports_nothing() {
    let store = Store::new();
    assert!(store.get_transaction(7).is_none());
}

#[test]
fn repeated_lists_of_a_quiescent_store_are_identical() {
    let mut store = Store::new();
    store
        .create_transaction(create_req(b"a", b"x", AmountInput::Finite(1), Some(1)), 0)
        .unwrap();
    store
        .create_transaction(create_req(b"b", b"y", AmountInput::Finite(2), Some(2)), 0)
        .unwrap();
    let first = store.list_transactions();
    let second = store.list_transactions();
    let third = store.list_transactions();
    assert_eq!(first.len(), second.len());
    assert_eq!(first.len(), third.len());
    for k in 0..first.len() {
        assert!(same_transaction(&first[k], &second[k]));
        assert!(same_transaction(&first[k], &third[k]));
    }
}

#[test]
fn loading_rejects_a_file_with_duplicate_ids() {
    let one = "{\"id\":\"00000000000000000000000000000001\",\"user\":\"a\",\"item\":\"b\",\
               \"amount\":1,\"timestamp\":1}";
    let text = format!("[{},{}]", one, one);
    let loaded = Store::from_bytes(&text.into_bytes());
    assert_eq!(loaded.list_transactions().len(), 0);
}
