//! End-to-end tests of the storage engine, its log format, discovery,
//! and the protocol translation.

use kvs::codec::{decode_at, encode_command, value_at};
use kvs::engine::KvsEngine;
use kvs::protocol::{get_response, get_result, remove_response, remove_result, set_response, set_result};
use kvs::{
    Command, Effect, GetResponse, KvStore, KvsError, KvsServer, RemoveResponse, Request, Response,
    Segment, SetResponse,
};

fn fresh_store() -> KvStore {
    KvStore::open(Vec::new()).expect("open on an empty directory must succeed")
}

// Should get previously stored value.
#[test]
fn get_stored_value() -> Result<(), KvsError> {
    let mut store = fresh_store();

    store.set("key1".to_owned(), "value1".to_owned())?;
    store.set("key2".to_owned(), "value2".to_owned())?;
    store.set("hello".to_owned(), "world".to_owned())?;

    Ok(())
}

#[test]
fn round_trip_set_get() {
    let mut store = fresh_store();
    store.set("key1".to_owned(), "value1".to_owned()).unwrap();
    assert_eq!(store.get("key1".to_owned()).unwrap(), Some("value1".to_owned()));
    assert_eq!(store.get("missing".to_owned()).unwrap(), None);
}

#[test]
fn overwrite_returns_latest() {
    let mut store = fresh_store();
    store.set("key1".to_owned(), "value1".to_owned()).unwrap();
    store.set("key1".to_owned(), "value2".to_owned()).unwrap();
    assert_eq!(store.get("key1".to_owned()).unwrap(), Some("value2".to_owned()));
}

#[test]
fn remove_then_get_none() {
    let mut store = fresh_store();
    store.set("key1".to_owned(), "value1".to_owned()).unwrap();
    store.remove("key1".to_owned()).unwrap();
    assert_eq!(store.get("key1".to_owned()).unwrap(), None);
}

#[test]
fn remove_absent_key_fails() {
    let mut store = fresh_store();
    let r = store.remove("never".to_owned());
    assert!(matches!(r, Err(KvsError::KeyNotFound)));
}

#[test]
fn durability_across_reopen() {
    let mut store = fresh_store();
    store.set("key1".to_owned(), "value1".to_owned()).unwrap();
    store.set("key2".to_owned(), "value2".to_owned()).unwrap();
    store.remove("key2".to_owned()).unwrap();

    let disk = store.snapshot();
    drop(store);

    let reopened = KvStore::open(disk).unwrap();
    assert_eq!(reopened.get("key1".to_owned()).unwrap(), Some("value1".to_owned()));
    assert_eq!(reopened.get("key2".to_owned()).unwrap(), None);
}

#[test]
fn compaction_keeps_the_map() {
    let mut store = fresh_store();
    for i in 0..5000u64 {
        store.set("key1".to_owned(), format!("{}", i)).unwrap();
    }
    assert_eq!(store.get("key1".to_owned()).unwrap(), Some("4999".to_owned()));
    assert!(store.uncompacted_bytes() > 0);

    store.compact().unwrap();

    assert_eq!(store.get("key1".to_owned()).unwrap(), Some("4999".to_owned()));
    assert_eq!(store.uncompacted_bytes(), 0);
}

#[test]
fn compaction_triggers_on_threshold() {
    let mut store = fresh_store();
    let mut big = String::new();
    while big.len() < 20_000 {
        big.push('x');
    }
    // overwriting one key leaves more than a megabyte reclaimable
    for _ in 0..100 {
        store.set("big".to_owned(), big.clone()).unwrap();
        store.set("other".to_owned(), "small".to_owned()).unwrap();
    }
    assert!(store.uncompacted_bytes() <= 1024 * 1024);
    assert_eq!(store.get("big".to_owned()).unwrap(), Some(big));
    assert_eq!(store.get("other".to_owned()).unwrap(), Some("small".to_owned()));
}

#[test]
fn compaction_survives_reopen() {
    let mut store = fresh_store();
    for i in 0..1000u64 {
        store.set("a".to_owned(), format!("{}", i)).unwrap();
        store.set("b".to_owned(), format!("{}", i * 2)).unwrap();
    }
    store.remove("b".to_owned()).unwrap();
    store.compact().unwrap();

    let reopened = KvStore::open(store.snapshot()).unwrap();
    assert_eq!(reopened.get("a".to_owned()).unwrap(), Some("999".to_owned()));
    assert_eq!(reopened.get("b".to_owned()).unwrap(), None);
}

#[test]
fn effects_mirror_the_log() {
    let mut store = fresh_store();
    let opened = store.take_effects();
    assert_eq!(opened.len(), 1);
    assert!(matches!(opened[0], Effect::Create { gen: 1 }));

    store.set("key1".to_owned(), "value1".to_owned()).unwrap();
    let wrote = store.take_effects();
    assert_eq!(wrote.len(), 1);
    match &wrote[0] {
        Effect::Append { gen, bytes } => {
            assert_eq!(*gen, 1);
            let expected = encode_command(&Command::Put {
                key: "key1".to_owned(),
                value: "value1".to_owned(),
            });
            assert_eq!(bytes, &expected);
        }
        other => panic!("expected an append effect, got {:?}", other),
    }

    store.compact().unwrap();
    let compacted = store.take_effects();
    assert!(matches!(compacted[0], Effect::Create { gen: 2 }));
    assert!(matches!(compacted[1], Effect::Append { gen: 2, .. }));
    assert!(matches!(compacted[2], Effect::Create { gen: 3 }));
    assert!(matches!(compacted[3], Effect::Delete { gen: 1 }));
}

#[test]
fn open_rejects_corrupt_log() {
    let segments = vec![Segment {
        gen: 1,
        data: vec![9, 9, 9, 9],
    }];
    let r = KvStore::open(segments);
    assert!(matches!(r, Err(KvsError::Serde(_))));
}

#[test]
fn open_replays_raw_segments() {
    let mut data = Vec::new();
    data.extend(encode_command(&Command::Put {
        key: "k".to_owned(),
        value: "old".to_owned(),
    }));
    data.extend(encode_command(&Command::Put {
        key: "k".to_owned(),
        value: "new".to_owned(),
    }));
    data.extend(encode_command(&Command::Put {
        key: "gone".to_owned(),
        value: "x".to_owned(),
    }));
    data.extend(encode_command(&Command::Remove {
        key: "gone".to_owned(),
    }));
    let store = KvStore::open(vec![Segment { gen: 7, data }]).unwrap();
    assert_eq!(store.get("k".to_owned()).unwrap(), Some("new".to_owned()));
    assert_eq!(store.get("gone".to_owned()).unwrap(), None);
    assert!(store.uncompacted_bytes() > 0);
}

#[test]
fn codec_round_trip() {
    let cmd = Command::Put {
        key: "une cl\u{e9}".to_owned(),
        value: "\u{1F600} value".to_owned(),
    };
    let bytes = encode_command(&cmd);
    let (decoded, end) = decode_at(&bytes, 0).unwrap();
    assert_eq!(end, bytes.len());
    match decoded {
        Command::Put { key, value } => {
            assert_eq!(key, "une cl\u{e9}");
            assert_eq!(value, "\u{1F600} value");
        }
        other => panic!("wrong decode: {:?}", other),
    }

    let tomb = encode_command(&Command::Remove { key: "k".to_owned() });
    let (decoded, end) = decode_at(&tomb, 0).unwrap();
    assert_eq!(end, tomb.len());
    assert!(matches!(decoded, Command::Remove { .. }));
}

#[test]
fn codec_rejects_truncated_record() {
    let bytes = encode_command(&Command::Put {
        key: "key".to_owned(),
        value: "value".to_owned(),
    });
    let mut cut = bytes.clone();
    cut.truncate(bytes.len() - 1);
    assert!(matches!(decode_at(&cut, 0), Err(KvsError::Serde(_))));
    assert!(matches!(decode_at(&bytes, 1), Err(KvsError::Serde(_))));
}

// An index entry that points at a Remove record must surface as
// UnexpectedCommandType, never as a value.
#[test]
fn unexpected_command_type_detected() {
    let tomb = encode_command(&Command::Remove { key: "key1".to_owned() });
    let len = tomb.len() as u64;
    let r = value_at(&tomb, 0, len);
    assert!(matches!(r, Err(KvsError::UnexpectedCommandType)));

    let put = encode_command(&Command::Put {
        key: "key1".to_owned(),
        value: "value1".to_owned(),
    });
    let len = put.len() as u64;
    assert_eq!(value_at(&put, 0, len).unwrap(), "value1");
    assert!(matches!(value_at(&put, 0, len - 1), Err(KvsError::Serde(_))));
}

#[test]
fn error_messages() {
    assert_eq!(KvsError::KeyNotFound.message(), "Key not found");
    assert_eq!(
        KvsError::UnexpectedCommandType.message(),
        "Unexpected command type"
    );
    assert_eq!(KvsError::StringError("boom".to_owned()).message(), "boom");
}

#[test]
fn responses_mirror_results() {
    assert_eq!(
        get_response(Ok(Some("v".to_owned()))),
        GetResponse::Value(Some("v".to_owned()))
    );
    assert_eq!(get_response(Ok(None)), GetResponse::Value(None));
    assert_eq!(
        get_response(Err(KvsError::KeyNotFound)),
        GetResponse::Failure("Key not found".to_owned())
    );
    assert_eq!(set_response(Ok(())), SetResponse::Done);
    assert_eq!(
        remove_response(Err(KvsError::KeyNotFound)),
        RemoveResponse::Failure("Key not found".to_owned())
    );
    assert_eq!(
        get_result(GetResponse::Value(Some("v".to_owned()))).unwrap(),
        Some("v".to_owned())
    );
    let back = get_result(GetResponse::Failure("oops".to_owned()));
    assert!(matches!(back, Err(KvsError::StringError(m)) if m == "oops"));
    assert!(set_result(SetResponse::Done).is_ok());
    assert!(matches!(
        set_result(SetResponse::Failure("x".to_owned())),
        Err(KvsError::StringError(_))
    ));
    assert!(remove_result(RemoveResponse::Done).is_ok());
    assert!(matches!(
        remove_result(RemoveResponse::Failure("x".to_owned())),
        Err(KvsError::StringError(_))
    ));
}

#[test]
fn server_answers_requests() {
    let store = fresh_store();
    let mut server = KvsServer::new(store);

    let resp = server.serve(Request::Put {
        key: "k".to_owned(),
        value: "v".to_owned(),
    });
    assert!(matches!(resp, Response::Put(SetResponse::Done)));

    let resp = server.serve(Request::Get { key: "k".to_owned() });
    match resp {
        Response::Get(GetResponse::Value(v)) => assert_eq!(v, Some("v".to_owned())),
        other => panic!("wrong response: {:?}", other),
    }

    let resp = server.serve(Request::Remove { key: "k".to_owned() });
    assert!(matches!(resp, Response::Remove(RemoveResponse::Done)));

    let resp = server.serve(Request::Remove { key: "k".to_owned() });
    match resp {
        Response::Remove(RemoveResponse::Failure(m)) => assert_eq!(m, "Key not found"),
        other => panic!("wrong response: {:?}", other),
    }
}

#[test]
fn sled_engine_round_trip() {
    let db = sled::Config::new()
        .temporary(true)
        .open()
        .expect("temporary sled database");
    let mut engine = kvs::SledKvsEngine::new(db);

    engine.set("key1".to_owned(), "value1".to_owned()).unwrap();
    assert_eq!(engine.get("key1".to_owned()).unwrap(), Some("value1".to_owned()));
    engine.remove("key1".to_owned()).unwrap();
    assert_eq!(engine.get("key1".to_owned()).unwrap(), None);
    assert!(matches!(
        engine.remove("key1".to_owned()),
        Err(KvsError::KeyNotFound)
    ));
}

// Given 100.log, 200.log, 300.log and non-matching files, discovery
// returns [100, 200, 300] ascending, ignoring non-matching names.
#[test]
fn discovery_orders_generations() {
    let names: Vec<String> = vec![
        "300.log".to_owned(),
        "100.log".to_owned(),
        "notes.txt".to_owned(),
        "200.log".to_owned(),
        "abc.log".to_owned(),
        ".log".to_owned(),
        "12x4.log".to_owned(),
    ];
    assert_eq!(kvs::sorted_gen_list(&names), vec![100u64, 200, 300]);
}

#[test]
fn parse_gen_accepts_only_numeric_log_names() {
    assert_eq!(kvs::parse_gen(&"42.log".to_owned()), Some(42));
    assert_eq!(kvs::parse_gen(&"007.log".to_owned()), Some(7));
    assert_eq!(
        kvs::parse_gen(&"18446744073709551615.log".to_owned()),
        Some(u64::MAX)
    );
    assert_eq!(kvs::parse_gen(&"18446744073709551616.log".to_owned()), None);
    assert_eq!(kvs::parse_gen(&"42.txt".to_owned()), None);
    assert_eq!(kvs::parse_gen(&"4a2.log".to_owned()), None);
    assert_eq!(kvs::parse_gen(&".log".to_owned()), None);
    assert_eq!(kvs::parse_gen(&"log".to_owned()), None);
}

#[test]
fn log_path_names_round_trip() {
    assert_eq!(kvs::log_path(0), "0.log");
    assert_eq!(kvs::log_path(1), "1.log");
    assert_eq!(kvs::log_path(300), "300.log");
    assert_eq!(kvs::log_path(u64::MAX), "18446744073709551615.log");
    for gen in [0u64, 7, 42, 1000, u64::MAX] {
        assert_eq!(kvs::parse_gen(&kvs::log_path(gen)), Some(gen));
    }
}
