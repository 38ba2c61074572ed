use raphdb::key_value_store::Backend;
use raphdb::mini_redis::{MiniRedis, DEFAULT_TTL_MS};
use raphdb::simple_store::{format_record, parse_record, SimpleStore, StoreError};

#[test]
fn test_set_then_get() {
    let mut store = MiniRedis::new();
    store.set(b"k".to_vec(), b"v".to_vec(), 0);
    assert_eq!(store.get(&b"k".to_vec()), Some(b"v".to_vec()));
}

#[test]
fn test_set_overwrites() {
    let mut store = MiniRedis::new();
    store.set(b"k".to_vec(), b"v1".to_vec(), 0);
    store.set(b"k".to_vec(), b"v2".to_vec(), 1);
    assert_eq!(store.get(&b"k".to_vec()), Some(b"v2".to_vec()));
}

#[test]
fn test_get_unused_key() {
    let store = MiniRedis::new();
    assert_eq!(store.get(&b"never".to_vec()), None);
}

#[test]
fn test_purge_removes_expired_entry() {
    let mut store = MiniRedis::new();
    let notify = store.set(b"k".to_vec(), b"v".to_vec(), 0);
    assert!(notify);
    assert_eq!(store.next_expiration(), Some(DEFAULT_TTL_MS));

    // before the expiry the entry survives a purge pass
    let next = store.purge_expired_keys(DEFAULT_TTL_MS - 1);
    assert_eq!(next, Some(DEFAULT_TTL_MS));
    assert_eq!(store.get(&b"k".to_vec()), Some(b"v".to_vec()));

    // once `now` passes the expiry the purge pass removes it
    let next = store.purge_expired_keys(DEFAULT_TTL_MS);
    assert_eq!(next, None);
    assert_eq!(store.get(&b"k".to_vec()), None);
}

#[test]
fn test_purge_skipped_after_shutdown() {
    let mut store = MiniRedis::new();
    store.set(b"k".to_vec(), b"v".to_vec(), 0);
    store.shutdown_purge_task();
    assert!(store.is_shutdown());
    let next = store.purge_expired_keys(u64::MAX - DEFAULT_TTL_MS);
    assert_eq!(next, None);
    assert_eq!(store.get(&b"k".to_vec()), Some(b"v".to_vec()));
}

#[test]
fn test_distinct_keys_all_land() {
    let mut store = MiniRedis::new();
    for i in 0..50u32 {
        let key = format!("key-{}", i).into_bytes();
        let value = format!("value-{}", i).into_bytes();
        store.set(key, value, u64::from(i));
    }
    for i in 0..50u32 {
        let key = format!("key-{}", i).into_bytes();
        let value = format!("value-{}", i).into_bytes();
        assert_eq!(store.get(&key), Some(value));
    }
}

#[test]
fn test_notify_only_for_earlier_expiry() {
    let mut store = MiniRedis::new();
    let notify = store.set(b"a".to_vec(), b"1".to_vec(), 100);
    assert!(notify);
    // a later expiry does not need to wake the purge task
    let notify = store.set(b"b".to_vec(), b"2".to_vec(), 200);
    assert!(!notify);
    // an earlier expiry does
    let notify = store.set(b"c".to_vec(), b"3".to_vec(), 50);
    assert!(notify);
}

#[test]
fn test_recover_empty_log() {
    let store = SimpleStore::recover(&Vec::new()).unwrap();
    assert_eq!(store.get_offset(&b"k".to_vec()), None);
}

#[test]
fn test_set_survives_restart() {
    // a set appends one record at the end of the log
    let mut log: Vec<u8> = Vec::new();
    let offset = log.len() as u64;
    log.extend_from_slice(&format_record(&b"k".to_vec(), &b"v1".to_vec()));

    // a restart rebuilds the index from the file alone
    let store = SimpleStore::recover(&log).unwrap();
    assert_eq!(store.get_offset(&b"k".to_vec()), Some(offset));

    // reading the line at the recovered offset yields the value
    let line = read_line(&log, offset);
    assert_eq!(parse_record(&line, &b"k".to_vec()).unwrap(), b"v1".to_vec());
}

#[test]
fn test_latest_set_wins_across_restart() {
    let mut log: Vec<u8> = Vec::new();
    log.extend_from_slice(&format_record(&b"k".to_vec(), &b"v1".to_vec()));
    log.extend_from_slice(&format_record(&b"other".to_vec(), &b"x".to_vec()));
    let offset = log.len() as u64;
    log.extend_from_slice(&format_record(&b"k".to_vec(), &b"v2".to_vec()));

    let store = SimpleStore::recover(&log).unwrap();
    assert_eq!(store.get_offset(&b"k".to_vec()), Some(offset));
    let line = read_line(&log, offset);
    assert_eq!(parse_record(&line, &b"k".to_vec()).unwrap(), b"v2".to_vec());

    // the earlier record is still in the file but unobserved
    assert!(log.windows(5).any(|w| w == b"k,v1\n"));
}

#[test]
fn test_recover_rejects_corrupt_line() {
    let log = b"no-separator-here\n".to_vec();
    let recovered = SimpleStore::recover(&log);
    assert!(matches!(recovered, Err(StoreError::Corrupt)));
}

#[test]
fn test_parse_record_errors() {
    assert_eq!(
        parse_record(&b"other,v\n".to_vec(), &b"key".to_vec()),
        Err(StoreError::KeyMismatch)
    );
    assert_eq!(parse_record(&b"nocomma\n".to_vec(), &b"key".to_vec()), Err(StoreError::Corrupt));
}

#[test]
fn test_record_saved_updates_index() {
    let mut store = SimpleStore::new();
    store.record_saved(b"k".to_vec(), 0);
    store.record_saved(b"k".to_vec(), 17);
    assert_eq!(store.get_offset(&b"k".to_vec()), Some(17));
}

#[test]
fn test_backend_from_str() {
    assert_eq!(Backend::from_str("mini-redis"), Ok(Backend::MiniRedis));
    assert_eq!(Backend::from_str("simple-store"), Ok(Backend::SimpleStore));
    assert_eq!(Backend::from_str("other"), Err(StoreError::UnknownBackend));
}

#[test]
fn test_backend_possible_names() {
    assert_eq!(Backend::possible_names(), vec!["mini-redis", "simple-store"]);
}

/// Reads the line starting at `offset`, terminator included, as the
/// append-log engine's `get` does from the file.
fn read_line(log: &[u8], offset: u64) -> Vec<u8> {
    let start = offset as usize;
    let end = log[start..]
        .iter()
        .position(|&b| b == b'\n')
        .map(|i| start + i + 1)
        .unwrap_or(log.len());
    log[start..end].to_vec()
}
