use internet_identity_log::key::UserIndexKey;
use internet_identity_log::service::{
    bytes_equal, entries_per_call, Cursor, LogError, LogService, MAX_ENTRIES_PER_CALL,
};

const USER_NUMBER_1: u64 = 100001;
const USER_NUMBER_2: u64 = 100002;
const USER_NUMBER_3: u64 = 100003;

const TIMESTAMP_1: u64 = 999991;
const TIMESTAMP_2: u64 = 999992;

fn principal_1() -> Vec<u8> {
    vec![0, 0, 0, 0, 0, 0, 0, 1, 1, 1]
}

fn principal_2() -> Vec<u8> {
    vec![0, 0, 0, 0, 0, 0, 0, 2, 1, 1]
}

fn default_writer() -> Vec<u8> {
    vec![0, 0, 0, 0, 0, 0, 0, 7, 1, 1]
}

fn log_entry_1() -> Vec<u8> {
    b"register anchor 100001".to_vec()
}

fn log_entry_2() -> Vec<u8> {
    b"register anchor 100002".to_vec()
}

fn install_log_canister() -> LogService {
    LogService::init(Some(principal_1()), default_writer()).unwrap()
}

fn next_token(cursor: &Option<Cursor>) -> Vec<u8> {
    match cursor {
        Some(Cursor::NextToken { next_token }) => next_token.clone(),
        _ => panic!("expected a next token"),
    }
}

#[test]
fn should_install() {
    let service = install_log_canister();
    let logs = service.get_logs(None, None);
    assert_eq!(logs.entries.len(), 0);
    assert_eq!(logs.next_idx, None);
    assert_eq!(service.authorized_writer(), principal_1());
}

#[test]
fn should_write_entry() {
    let mut service = install_log_canister();
    let seq = service
        .write_entry(&principal_1(), USER_NUMBER_1, TIMESTAMP_1, log_entry_1())
        .unwrap();
    assert_eq!(seq, 0);
    assert_eq!(service.log_length(), 1);
}

#[test]
fn should_read_previously_written_entry() {
    let mut service = install_log_canister();
    service
        .write_entry(&principal_1(), USER_NUMBER_1, TIMESTAMP_1, log_entry_1())
        .unwrap();
    let logs = service.get_logs(None, None);
    assert_eq!(logs.entries.len(), 1);
    assert_eq!(logs.entries.get(0).unwrap(), &log_entry_1());
    assert_eq!(logs.next_idx, None);
}

#[test]
fn should_return_logs_per_user() {
    let mut service = install_log_canister();
    service
        .write_entry(&principal_1(), USER_NUMBER_1, TIMESTAMP_1, log_entry_1())
        .unwrap();
    service
        .write_entry(&principal_1(), USER_NUMBER_2, TIMESTAMP_2, log_entry_2())
        .unwrap();

    let logs = service.get_logs(None, None);
    assert_eq!(logs.entries.len(), 2);

    let user_1_logs = service.get_user_logs(USER_NUMBER_1, None, None).unwrap();
    assert_eq!(user_1_logs.entries.len(), 1);
    assert_eq!(user_1_logs.entries.get(0).unwrap(), &log_entry_1());

    let user_2_logs = service.get_user_logs(USER_NUMBER_2, None, None).unwrap();
    assert_eq!(user_2_logs.entries.len(), 1);
    assert_eq!(user_2_logs.entries.get(0).unwrap(), &log_entry_2());

    let user_3_logs = service.get_user_logs(USER_NUMBER_3, None, None).unwrap();
    assert!(user_3_logs.entries.is_empty());
    assert!(user_3_logs.cursor.is_none());
}

#[test]
fn unauthorized_write_changes_nothing() {
    let mut service = install_log_canister();
    let r = service.write_entry(&principal_2(), USER_NUMBER_1, TIMESTAMP_1, log_entry_1());
    assert_eq!(r, Err(LogError::Unauthorized));
    assert_eq!(service.log_length(), 0);
    assert!(service.get_logs(None, None).entries.is_empty());
    assert!(service.get_user_logs(USER_NUMBER_1, None, None).unwrap().entries.is_empty());
}

#[test]
fn default_writer_applies_without_argument() {
    let mut service = LogService::init(None, default_writer()).unwrap();
    assert_eq!(service.authorized_writer(), default_writer());
    assert_eq!(
        service.write_entry(&principal_1(), 1, 1, vec![1]),
        Err(LogError::Unauthorized)
    );
    assert_eq!(service.write_entry(&default_writer(), 1, 1, vec![1]), Ok(0));
}

#[test]
fn sequences_are_dense() {
    let mut service = install_log_canister();
    for i in 0..5u64 {
        let seq = service
            .write_entry(&principal_1(), 7, 100 - i, vec![i as u8])
            .unwrap();
        assert_eq!(seq, i);
    }
    assert_eq!(service.log_length(), 5);
    let logs = service.get_logs(Some(0), None);
    let expected: Vec<Vec<u8>> = (0..5u8).map(|i| vec![i]).collect();
    assert_eq!(logs.entries, expected);
}

#[test]
fn get_logs_windows_and_next_index() {
    let mut service = install_log_canister();
    for i in 0..10u8 {
        service.write_entry(&principal_1(), 1, 1, vec![i]).unwrap();
    }
    // The tail window.
    let tail = service.get_logs(None, Some(3));
    assert_eq!(tail.entries, vec![vec![7], vec![8], vec![9]]);
    assert_eq!(tail.next_idx, None);
    // A window from the start, with more to come.
    let head = service.get_logs(Some(0), Some(4));
    assert_eq!(head.entries, vec![vec![0], vec![1], vec![2], vec![3]]);
    assert_eq!(head.next_idx, Some(4));
    let second = service.get_logs(head.next_idx, Some(4));
    assert_eq!(second.entries, vec![vec![4], vec![5], vec![6], vec![7]]);
    assert_eq!(second.next_idx, Some(8));
    let third = service.get_logs(second.next_idx, Some(4));
    assert_eq!(third.entries, vec![vec![8], vec![9]]);
    assert_eq!(third.next_idx, None);
    // Past the end.
    let past = service.get_logs(Some(u64::MAX), None);
    assert!(past.entries.is_empty());
    assert_eq!(past.next_idx, None);
    // A limit of zero.
    let none = service.get_logs(Some(0), Some(0));
    assert!(none.entries.is_empty());
    assert_eq!(none.next_idx, Some(0));
}

#[test]
fn get_logs_caps_the_limit() {
    let mut service = install_log_canister();
    for i in 0..1005u32 {
        service
            .write_entry(&principal_1(), 1, 1, i.to_le_bytes().to_vec())
            .unwrap();
    }
    let all = service.get_logs(Some(0), Some(u16::MAX));
    assert_eq!(all.entries.len(), 1000);
    assert_eq!(all.next_idx, Some(1000));
    let tail = service.get_logs(None, None);
    assert_eq!(tail.entries.len(), 1000);
    assert_eq!(tail.entries[0], 5u32.to_le_bytes().to_vec());
    assert_eq!(tail.next_idx, None);
}

#[test]
fn user_logs_paginate_in_write_order() {
    let user = 42;
    let mut service = install_log_canister();
    for i in 0..2500u32 {
        service
            .write_entry(&principal_1(), user, 5, i.to_le_bytes().to_vec())
            .unwrap();
    }
    service.write_entry(&principal_1(), user + 1, 0, vec![9]).unwrap();

    let first = service.get_user_logs(user, None, Some(1000)).unwrap();
    assert_eq!(first.entries.len(), 1000);
    let second = service
        .get_user_logs(user, Some(Cursor::NextToken { next_token: next_token(&first.cursor) }), Some(1000))
        .unwrap();
    assert_eq!(second.entries.len(), 1000);
    let third = service
        .get_user_logs(user, Some(Cursor::NextToken { next_token: next_token(&second.cursor) }), Some(1000))
        .unwrap();
    assert_eq!(third.entries.len(), 500);
    assert!(third.cursor.is_none());

    let mut all = first.entries;
    all.extend(second.entries);
    all.extend(third.entries);
    let expected: Vec<Vec<u8>> = (0..2500u32).map(|i| i.to_le_bytes().to_vec()).collect();
    assert_eq!(all, expected);
}

#[test]
fn timestamp_cursor_is_a_start_hint() {
    let user = 7;
    let mut service = install_log_canister();
    service.write_entry(&principal_1(), user, 20, b"twenty".to_vec()).unwrap();
    service.write_entry(&principal_1(), user, 10, b"ten".to_vec()).unwrap();
    service.write_entry(&principal_1(), user, 30, b"thirty".to_vec()).unwrap();
    service.write_entry(&principal_1(), user - 1, 25, b"other".to_vec()).unwrap();

    let all = service.get_user_logs(user, None, None).unwrap();
    assert_eq!(all.entries, vec![b"ten".to_vec(), b"twenty".to_vec(), b"thirty".to_vec()]);

    let from_20 = service
        .get_user_logs(user, Some(Cursor::Timestamp { timestamp: 20 }), None)
        .unwrap();
    assert_eq!(from_20.entries, vec![b"twenty".to_vec(), b"thirty".to_vec()]);
    assert!(from_20.cursor.is_none());
}

#[test]
fn user_logs_cursor_is_the_next_key() {
    let mut service = install_log_canister();
    service.write_entry(&principal_1(), 3, 1, vec![1]).unwrap();
    service.write_entry(&principal_1(), 3, 2, vec![2]).unwrap();
    service.write_entry(&principal_1(), 3, 2, vec![3]).unwrap();

    let page = service.get_user_logs(3, None, Some(1)).unwrap();
    assert_eq!(page.entries, vec![vec![1]]);
    let expected = UserIndexKey { user_number: 3, timestamp: 2, log_index: 1 }.to_bytes();
    assert_eq!(next_token(&page.cursor), expected);

    let next = service
        .get_user_logs(3, Some(Cursor::NextToken { next_token: expected }), Some(1))
        .unwrap();
    assert_eq!(next.entries, vec![vec![2]]);
    let last = service
        .get_user_logs(3, Some(Cursor::NextToken { next_token: next_token(&next.cursor) }), Some(1))
        .unwrap();
    assert_eq!(last.entries, vec![vec![3]]);
    assert!(last.cursor.is_none());
}

#[test]
fn user_logs_respect_the_limit() {
    let mut service = install_log_canister();
    for i in 0..1003u32 {
        service.write_entry(&principal_1(), 5, i as u64, vec![1]).unwrap();
    }
    let capped = service.get_user_logs(5, None, Some(2000)).unwrap();
    assert_eq!(capped.entries.len(), 1000);
    assert!(capped.cursor.is_some());
    let zero = service.get_user_logs(5, None, Some(0)).unwrap();
    assert!(zero.entries.is_empty());
    assert_eq!(
        next_token(&zero.cursor),
        UserIndexKey { user_number: 5, timestamp: 0, log_index: 0 }.to_bytes()
    );
}

#[test]
fn malformed_cursor_is_rejected() {
    let mut service = install_log_canister();
    service.write_entry(&principal_1(), 1, 1, vec![1]).unwrap();
    let r = service.get_user_logs(1, Some(Cursor::NextToken { next_token: vec![0; 23] }), None);
    assert!(matches!(r, Err(LogError::MalformedCursor)));
    let r = service.get_user_logs(1, Some(Cursor::NextToken { next_token: vec![0; 25] }), None);
    assert!(matches!(r, Err(LogError::MalformedCursor)));
}

#[test]
fn foreign_cursor_stops_at_another_user() {
    let mut service = install_log_canister();
    service.write_entry(&principal_1(), 1, 1, vec![1]).unwrap();
    service.write_entry(&principal_1(), 2, 1, vec![2]).unwrap();
    let token = UserIndexKey { user_number: 1, timestamp: 0, log_index: 0 }.to_bytes();
    let r = service
        .get_user_logs(2, Some(Cursor::NextToken { next_token: token }), None)
        .unwrap();
    assert!(r.entries.is_empty());
    assert!(r.cursor.is_none());
}

#[test]
fn key_encoding_is_little_endian() {
    let key = UserIndexKey {
        user_number: 0x0102030405060708,
        timestamp: 1,
        log_index: 256,
    };
    let bytes = key.to_bytes();
    assert_eq!(
        bytes,
        vec![
            8, 7, 6, 5, 4, 3, 2, 1, //
            1, 0, 0, 0, 0, 0, 0, 0, //
            0, 1, 0, 0, 0, 0, 0, 0,
        ]
    );
    assert_eq!(UserIndexKey::from_bytes(&bytes), Some(key));
    assert_eq!(UserIndexKey::from_bytes(&bytes[..23]), None);
}

#[test]
fn per_call_limit_and_byte_equality() {
    assert_eq!(entries_per_call(None), MAX_ENTRIES_PER_CALL);
    assert_eq!(entries_per_call(Some(10)), 10);
    assert_eq!(entries_per_call(Some(1000)), 1000);
    assert_eq!(entries_per_call(Some(1001)), 1000);
    assert!(bytes_equal(&[1, 2, 3], &[1, 2, 3]));
    assert!(!bytes_equal(&[1, 2, 3], &[1, 2, 4]));
    assert!(!bytes_equal(&[1, 2], &[1, 2, 3]));
    assert!(bytes_equal(&[], &[]));
}
