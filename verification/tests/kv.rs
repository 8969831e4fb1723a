use raft::kv::KvCommand;
use raft::kv::KvResult;
use raft::kv::KvSnapshotError;
use raft::kv::KvStore;
use raft::state_machine::StateMachine;
use raft::types::SnapshotData;

#[test]
fn get_returns_stored_value_after_set() {
    let mut store = KvStore::new();

    store.apply(KvCommand::Put {
        key: "username".to_string(),
        value: "miles".to_string(),
    });

    let result = store.apply(KvCommand::Get {
        key: "username".to_string(),
    });

    assert_eq!(result, KvResult::Value(Some("miles".to_string())));
}

#[test]
fn get_returns_none_for_absent_key() {
    let mut store = KvStore::new();

    let result = store.apply(KvCommand::Get {
        key: "username".to_string(),
    });

    assert_eq!(result, KvResult::Value(None));
}

#[test]
fn delete_removes_key_and_subsequent_get_returns_none() {
    let mut store = KvStore::new();

    store.apply(KvCommand::Put {
        key: "username".to_string(),
        value: "miles".to_string(),
    });
    store.apply(KvCommand::Delete {
        key: "username".to_string(),
    });

    let result = store.apply(KvCommand::Get {
        key: "username".to_string(),
    });

    assert_eq!(result, KvResult::Value(None));
}

#[test]
fn delete_on_absent_key_returns_ok() {
    let mut store = KvStore::new();

    let result = store.apply(KvCommand::Delete {
        key: "username".to_string(),
    });

    assert_eq!(result, KvResult::Done);
}

#[test]
fn snapshot_then_restore_round_trips_store_contents() {
    let mut store = KvStore::new();
    store.apply(KvCommand::Put {
        key: "username".to_string(),
        value: "miles".to_string(),
    });
    store.apply(KvCommand::Put {
        key: "status".to_string(),
        value: "active".to_string(),
    });

    let data = store.snapshot().unwrap();
    let mut restored = KvStore::new();
    restored.restore(&data).unwrap();

    assert_eq!(
        restored.apply(KvCommand::Get {
            key: "username".to_string()
        }),
        KvResult::Value(Some("miles".to_string()))
    );
    assert_eq!(
        restored.apply(KvCommand::Get {
            key: "status".to_string()
        }),
        KvResult::Value(Some("active".to_string()))
    );
}

#[test]
fn restore_replaces_existing_state_not_merges() {
    let mut source = KvStore::new();
    source.apply(KvCommand::Put {
        key: "region".to_string(),
        value: "eu-west-1".to_string(),
    });
    let data = source.snapshot().unwrap();

    let mut target = KvStore::new();
    target.apply(KvCommand::Put {
        key: "username".to_string(),
        value: "miles".to_string(),
    });
    target.restore(&data).unwrap();

    assert_eq!(
        target.apply(KvCommand::Get {
            key: "username".to_string()
        }),
        KvResult::Value(None),
        "restore must replace state wholesale, not merge into it"
    );
    assert_eq!(
        target.apply(KvCommand::Get {
            key: "region".to_string()
        }),
        KvResult::Value(Some("eu-west-1".to_string()))
    );
}

#[test]
fn restore_rejects_corrupt_bytes() {
    let mut store = KvStore::new();
    let corrupt = SnapshotData::new(b"not valid json".to_vec());

    assert!(store.restore(&corrupt).is_err());
}

#[test]
fn snapshot_is_a_json_object_with_the_entries() {
    let mut store = KvStore::new();
    store.apply(KvCommand::Put {
        key: "k\"ey".to_string(),
        value: "v\u{e9}\n".to_string(),
    });
    let data = store.snapshot().unwrap();
    let value: serde_json::Value = serde_json::from_slice(data.as_bytes()).unwrap();
    assert_eq!(value["entries"]["k\"ey"], "v\u{e9}\n");
    assert_eq!(value.as_object().unwrap().len(), 1);
}

#[test]
fn restore_reads_the_entries_and_ignores_other_fields() {
    let mut store = KvStore::new();
    let data = SnapshotData::new(b"{\"version\":1,\"entries\":{\"a\":\"b\"}}".to_vec());
    store.restore(&data).unwrap();
    assert_eq!(
        store.apply(KvCommand::Get { key: "a".to_string() }),
        KvResult::Value(Some("b".to_string()))
    );
}

#[test]
fn restore_without_entries_is_an_error_and_keeps_the_store() {
    let mut store = KvStore::default();
    store.apply(KvCommand::Put { key: "a".to_string(), value: "b".to_string() });
    let missing = SnapshotData::new(b"{}".to_vec());
    assert!(matches!(store.restore(&missing), Err(KvSnapshotError::MissingEntries)));
    let wrong = SnapshotData::new(b"{\"entries\":{\"a\":1}}".to_vec());
    assert!(matches!(store.restore(&wrong), Err(KvSnapshotError::Json(_))));
    assert_eq!(
        store.apply(KvCommand::Get { key: "a".to_string() }),
        KvResult::Value(Some("b".to_string()))
    );
}

#[test]
fn set_replaces_the_value_of_a_key() {
    let mut store = KvStore::new();
    for value in ["one", "two"] {
        store.apply(KvCommand::Put { key: "k".to_string(), value: value.to_string() });
    }
    assert_eq!(
        store.apply(KvCommand::Get { key: "k".to_string() }),
        KvResult::Value(Some("two".to_string()))
    );
}

fn value_of(store: &mut KvStore, key: &str) -> KvResult {
    store.apply(KvCommand::Get { key: key.to_string() })
}

/// Whatever the keys and values are, a snapshot is read back as it was written, also where a key is
/// one that a JSON library might take for a mark of its own.
#[test]
fn snapshot_round_trips_any_key() {
    for key in ["$serde_json::private::RawValue", "$serde_json::private::Number", "entries", ""] {
        for value in ["x", "{}", "{\"a\":1}", "\u{0}\"\\"] {
            let mut store = KvStore::new();
            store.apply(KvCommand::Put { key: key.to_string(), value: value.to_string() });
            let data = store.snapshot().unwrap();
            let mut restored = KvStore::new();
            restored.restore(&data).unwrap();
            assert_eq!(value_of(&mut restored, key), KvResult::Value(Some(value.to_string())));
        }
    }
}

#[test]
fn restore_reads_the_fields_as_an_array_too() {
    let mut store = KvStore::new();
    store.restore(&SnapshotData::new(b"[{\"a\":\"b\"}]".to_vec())).unwrap();
    assert_eq!(value_of(&mut store, "a"), KvResult::Value(Some("b".to_string())));
    let longer = SnapshotData::new(b"[{\"a\":\"c\"},1]".to_vec());
    assert!(matches!(store.restore(&longer), Err(KvSnapshotError::Json(_))));
    assert!(matches!(
        store.restore(&SnapshotData::new(b"[]".to_vec())),
        Err(KvSnapshotError::Json(_))
    ));
    assert_eq!(value_of(&mut store, "a"), KvResult::Value(Some("b".to_string())));
}

/// A field that is not the entries is not looked into, so long as it is JSON.
#[test]
fn restore_does_not_look_into_other_fields() {
    let nested = format!("{}{}", "[".repeat(500), "]".repeat(500));
    for other in ["1e999", "\"\\ud800\"", nested.as_str(), "{\"entries\":{\"a\":\"c\"}}"] {
        let text = format!("{{\"other\":{other},\"entries\":{{\"a\":\"b\"}}}}");
        let mut store = KvStore::new();
        store.restore(&SnapshotData::new(text.into_bytes())).unwrap();
        assert_eq!(value_of(&mut store, "a"), KvResult::Value(Some("b".to_string())));
    }
}
