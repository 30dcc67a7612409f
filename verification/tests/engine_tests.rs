use lmdb_editor::cursor::Cursor;
use lmdb_editor::entry::EscapedEntry;
use lmdb_editor::session::Session;
use lmdb_editor::store::Entry;
use lmdb_editor::store::Store;
use lmdb_editor::EngineError;

fn fresh_session() -> Session {
    Session::new(Store::new())
}

fn key_of(i: usize) -> Vec<u8> {
    format!("k{:02}", i).into_bytes()
}

fn value_of(i: usize) -> Vec<u8> {
    format!("v{:02}", i).into_bytes()
}

/// A session over the main collection filled with `n` committed rows.
fn session_with_rows(n: usize) -> Session {
    let mut s = fresh_session();
    s.begin_write();
    for i in 0..n {
        s.put(0, key_of(i), value_of(i)).unwrap();
    }
    s.commit();
    s
}

#[test]
fn session_is_always_in_exactly_one_mode() {
    let mut s = fresh_session();
    assert!(!s.is_writing());
    s.begin_write();
    assert!(s.is_writing());
    // A second request before commit or abort is ignored, not queued.
    s.begin_write();
    assert!(s.is_writing());
    s.commit();
    assert!(!s.is_writing());
    s.begin_write();
    assert!(s.is_writing());
    s.abort();
    assert!(!s.is_writing());
    // Commit and abort while reading are no-ops that keep the read state.
    s.commit();
    assert!(!s.is_writing());
    s.abort();
    assert!(!s.is_writing());
}

#[test]
fn commit_makes_writes_visible() {
    let mut s = fresh_session();
    s.begin_write();
    s.put(0, b"K".to_vec(), b"V".to_vec()).unwrap();
    s.commit();
    assert_eq!(s.get(0, &b"K".to_vec()), Some(b"V".to_vec()));
}

#[test]
fn abort_discards_writes() {
    let mut s = fresh_session();
    s.begin_write();
    s.put(0, b"K".to_vec(), b"V".to_vec()).unwrap();
    assert_eq!(s.get(0, &b"K".to_vec()), Some(b"V".to_vec()));
    s.abort();
    assert_eq!(s.get(0, &b"K".to_vec()), None);
}

#[test]
fn write_session_sees_its_own_writes_before_commit() {
    let mut s = session_with_rows(3);
    s.begin_write();
    s.put(0, key_of(1), b"changed".to_vec()).unwrap();
    assert_eq!(s.get(0, &key_of(1)), Some(b"changed".to_vec()));
    s.abort();
    assert_eq!(s.get(0, &key_of(1)), Some(value_of(1)));
}

#[test]
fn rows_come_back_in_key_order() {
    let mut s = fresh_session();
    s.begin_write();
    s.put(0, b"b".to_vec(), b"2".to_vec()).unwrap();
    s.put(0, b"a".to_vec(), b"1".to_vec()).unwrap();
    s.put(0, b"c".to_vec(), b"3".to_vec()).unwrap();
    s.commit();
    let mut cur = Cursor::new();
    let rows = cur.request_rows(&s, 0, 0, 10);
    let keys: Vec<Vec<u8>> = rows.iter().map(|e: &Entry| e.key.clone()).collect();
    assert_eq!(keys, vec![b"a".to_vec(), b"b".to_vec(), b"c".to_vec()]);
}

#[test]
fn sequential_paging_equals_one_request_without_reseeking() {
    let s = session_with_rows(100);
    let mut cur = Cursor::new();
    let mut paged: Vec<(Vec<u8>, Vec<u8>)> = Vec::new();
    let first = cur.request_rows(&s, 0, 0, 10);
    let seeks_after_first = cur.reseeks;
    for e in first {
        paged.push((e.key, e.value));
    }
    for e in cur.request_rows(&s, 0, 10, 10) {
        paged.push((e.key, e.value));
    }
    for e in cur.request_rows(&s, 0, 20, 10) {
        paged.push((e.key, e.value));
    }
    // The two continuations reused the open position: no further seek.
    assert_eq!(cur.reseeks, seeks_after_first);
    let mut whole_cursor = Cursor::new();
    let whole: Vec<(Vec<u8>, Vec<u8>)> = whole_cursor
        .request_rows(&s, 0, 0, 30)
        .into_iter()
        .map(|e| (e.key, e.value))
        .collect();
    assert_eq!(paged, whole);
    assert_eq!(paged.len(), 30);
    assert_eq!(paged[0].0, key_of(0));
    assert_eq!(paged[29].0, key_of(29));
}

#[test]
fn jumping_requests_reseek_and_stay_correct() {
    let s = session_with_rows(100);
    let mut cur = Cursor::new();
    let _ = cur.request_rows(&s, 0, 5, 5);
    let seeks_after_first = cur.reseeks;
    let rows = cur.request_rows(&s, 0, 50, 5);
    // The jump from row 10 to row 50 forced a fresh seek.
    assert_eq!(cur.reseeks, seeks_after_first + 1);
    assert_eq!(rows.len(), 5);
    for (offset, e) in rows.iter().enumerate() {
        assert_eq!(e.key, key_of(50 + offset));
        assert_eq!(e.value, value_of(50 + offset));
    }
}

#[test]
fn cursor_is_invalidated_by_a_new_transaction() {
    let mut s = session_with_rows(10);
    let mut cur = Cursor::new();
    let _ = cur.request_rows(&s, 0, 0, 5);
    let seeks = cur.reseeks;
    s.begin_write();
    // Row 5 is the sequential continuation, but the transaction changed.
    let rows = cur.request_rows(&s, 0, 5, 5);
    assert_eq!(cur.reseeks, seeks + 1);
    assert_eq!(rows[0].key, key_of(5));
    s.abort();
}

#[test]
fn cursor_window_past_the_end_is_empty() {
    let s = session_with_rows(4);
    let mut cur = Cursor::new();
    assert_eq!(cur.request_rows(&s, 0, 4, 10).len(), 0);
    assert_eq!(cur.request_rows(&s, 0, 100, 3).len(), 0);
    assert_eq!(cur.request_rows(&s, 0, 2, 10).len(), 2);
}

#[test]
fn cursor_rederives_bounds_after_deletions() {
    let mut s = session_with_rows(6);
    let mut cur = Cursor::new();
    assert_eq!(cur.request_rows(&s, 0, 0, 6).len(), 6);
    s.begin_write();
    s.delete(0, &key_of(5)).unwrap();
    s.delete(0, &key_of(4)).unwrap();
    let rows = cur.request_rows(&s, 0, 0, 6);
    assert_eq!(rows.len(), 4);
    assert_eq!(rows[3].key, key_of(3));
    s.abort();
}

#[test]
fn deleting_twice_succeeds_both_times() {
    let mut s = session_with_rows(1);
    s.begin_write();
    assert_eq!(s.delete(0, &key_of(0)), Ok(true));
    assert_eq!(s.delete(0, &key_of(0)), Ok(false));
    s.commit();
    assert_eq!(s.get(0, &key_of(0)), None);
}

#[test]
fn mutations_while_reading_are_rejected_and_do_nothing() {
    let mut s = session_with_rows(1);
    assert_eq!(
        s.put(0, b"new".to_vec(), b"x".to_vec()),
        Err(EngineError::InvalidState)
    );
    assert_eq!(s.delete(0, &key_of(0)), Err(EngineError::InvalidState));
    let mut cur = Cursor::new();
    let rows = cur.request_rows(&s, 0, 0, 10);
    assert_eq!(rows.len(), 1);
    assert_eq!(s.get(0, &key_of(0)), Some(value_of(0)));
}

#[test]
fn edit_buffer_inserts_decoded_entry_and_clears() {
    let mut s = fresh_session();
    let mut buffer = EscapedEntry::new();
    buffer.stage_for_edit(b"id\\x00".to_vec(), b"payload \\xFF".to_vec());
    s.begin_write();
    assert_eq!(buffer.commit_insert(&mut s, 0), Ok(()));
    assert!(buffer.key.is_empty());
    assert!(buffer.data.is_empty());
    s.commit();
    assert_eq!(s.get(0, &b"id\x00".to_vec()), Some(b"payload \xff".to_vec()));
}

#[test]
fn edit_buffer_rejects_malformed_text_and_keeps_it() {
    let mut s = fresh_session();
    let mut buffer = EscapedEntry::new();
    buffer.stage_for_edit(b"\\xZZ".to_vec(), b"fine".to_vec());
    s.begin_write();
    assert_eq!(buffer.commit_insert(&mut s, 0), Err(EngineError::Decode));
    assert_eq!(buffer.commit_delete(&mut s, 0), Err(EngineError::Decode));
    // The buffer stays for correction and nothing was stored.
    assert_eq!(buffer.key, b"\\xZZ".to_vec());
    assert_eq!(buffer.data, b"fine".to_vec());
    s.commit();
    let mut cur = Cursor::new();
    assert_eq!(cur.request_rows(&s, 0, 0, 10).len(), 0);
}

#[test]
fn edit_buffer_requires_a_write_transaction() {
    let mut s = fresh_session();
    let mut buffer = EscapedEntry::new();
    buffer.stage_for_edit(b"key".to_vec(), b"value".to_vec());
    assert_eq!(
        buffer.commit_insert(&mut s, 0),
        Err(EngineError::InvalidState)
    );
    assert_eq!(
        buffer.commit_delete(&mut s, 0),
        Err(EngineError::InvalidState)
    );
    assert_eq!(buffer.key, b"key".to_vec());
    assert_eq!(s.get(0, &b"key".to_vec()), None);
}

#[test]
fn edit_buffer_delete_is_idempotent() {
    let mut s = session_with_rows(1);
    let mut buffer = EscapedEntry::new();
    s.begin_write();
    buffer.stage_for_edit(b"k00".to_vec(), Vec::new());
    assert_eq!(buffer.commit_delete(&mut s, 0), Ok(()));
    buffer.stage_for_edit(b"k00".to_vec(), Vec::new());
    assert_eq!(buffer.commit_delete(&mut s, 0), Ok(()));
    s.commit();
    assert_eq!(s.get(0, &key_of(0)), None);
}

#[test]
fn main_collection_always_opens() {
    let mut s = fresh_session();
    assert_eq!(s.open(None), Some(0));
    assert_eq!(s.open_or_create(None), Ok(0));
    assert_eq!(s.open(Some(&b"missing".to_vec())), None);
}

#[test]
fn creating_a_collection_needs_a_write_transaction() {
    let mut s = fresh_session();
    assert_eq!(
        s.open_or_create(Some(&b"logs".to_vec())),
        Err(EngineError::InvalidState)
    );
    s.begin_write();
    let id = s.open_or_create(Some(&b"logs".to_vec())).unwrap();
    assert_eq!(id, 1);
    // Opening it again hands back the same handle.
    assert_eq!(s.open_or_create(Some(&b"logs".to_vec())), Ok(1));
    s.put(id, b"a".to_vec(), b"1".to_vec()).unwrap();
    s.commit();
    assert_eq!(s.open(Some(&b"logs".to_vec())), Some(1));
    assert_eq!(s.get(1, &b"a".to_vec()), Some(b"1".to_vec()));
}

#[test]
fn aborted_collection_creation_disappears() {
    let mut s = fresh_session();
    s.begin_write();
    assert_eq!(s.open_or_create(Some(&b"tmp".to_vec())), Ok(1));
    assert_eq!(s.open(Some(&b"tmp".to_vec())), Some(1));
    s.abort();
    assert_eq!(s.open(Some(&b"tmp".to_vec())), None);
}

#[test]
fn collections_are_independent() {
    let mut s = fresh_session();
    s.begin_write();
    let logs = s.open_or_create(Some(&b"logs".to_vec())).unwrap();
    s.put(0, b"k".to_vec(), b"main".to_vec()).unwrap();
    s.put(logs, b"k".to_vec(), b"logs".to_vec()).unwrap();
    s.commit();
    assert_eq!(s.get(0, &b"k".to_vec()), Some(b"main".to_vec()));
    assert_eq!(s.get(logs, &b"k".to_vec()), Some(b"logs".to_vec()));
}

#[test]
fn put_overwrites_existing_key_without_duplicating_it() {
    let mut s = session_with_rows(3);
    s.begin_write();
    s.put(0, key_of(1), b"replaced".to_vec()).unwrap();
    s.commit();
    let mut cur = Cursor::new();
    let rows = cur.request_rows(&s, 0, 0, 10);
    assert_eq!(rows.len(), 3);
    assert_eq!(s.get(0, &key_of(1)), Some(b"replaced".to_vec()));
}

#[test]
fn ignored_second_begin_write_keeps_staged_writes() {
    let mut s = fresh_session();
    s.begin_write();
    s.put(0, b"K".to_vec(), b"V".to_vec()).unwrap();
    s.begin_write();
    assert!(s.is_writing());
    assert_eq!(s.get(0, &b"K".to_vec()), Some(b"V".to_vec()));
    s.commit();
    assert_eq!(s.get(0, &b"K".to_vec()), Some(b"V".to_vec()));
}

#[test]
fn default_buffer_is_empty() {
    let buffer = EscapedEntry::default();
    assert!(buffer.key.is_empty());
    assert!(buffer.data.is_empty());
}

#[test]
fn errors_describe_themselves() {
    assert_eq!(EngineError::Decode.describe(), "malformed escape text");
    assert_eq!(
        EngineError::InvalidState.describe(),
        "no active write transaction"
    );
}
