use kvlog::storage::kvstore::{Backend, StoreError};
use kvlog::storage::log_storage::SimpleLogBackend;

fn open(content: &[u8]) -> SimpleLogBackend {
    SimpleLogBackend::new(content.to_vec())
}

fn whole_log(engine: &SimpleLogBackend) -> Vec<u8> {
    engine.log_suffix(0)
}

#[test]
fn round_trip() {
    let mut engine = open(b"");
    let prev = engine.insert(b"k".to_vec(), b"v".to_vec()).unwrap();
    assert_eq!(prev, None);
    assert_eq!(engine.get(&b"k".to_vec()), Some(b"v".to_vec()));
}

#[test]
fn overwrite_returns_second_value() {
    let mut engine = open(b"");
    engine.insert(b"k".to_vec(), b"v1".to_vec()).unwrap();
    let prev = engine.insert(b"k".to_vec(), b"v2".to_vec()).unwrap();
    assert_eq!(prev, Some(b"v1".to_vec()));
    assert_eq!(engine.get(&b"k".to_vec()), Some(b"v2".to_vec()));
}

#[test]
fn overwrite_index_points_at_second_record() {
    let mut engine = open(b"");
    engine.insert(b"k".to_vec(), b"v1".to_vec()).unwrap();
    // the first record is "k\tv1\n", 5 bytes, so the second starts at 5
    engine.insert(b"k".to_vec(), b"v2".to_vec()).unwrap();
    assert_eq!(engine.index_offset(&b"k".to_vec()), Some(5));
    assert_eq!(engine.cursor(), 10);
}

#[test]
fn delete_then_get() {
    let mut engine = open(b"");
    engine.insert(b"k".to_vec(), b"v".to_vec()).unwrap();
    let prev = engine.remove(&b"k".to_vec());
    assert_eq!(prev, Some(b"v".to_vec()));
    assert_eq!(engine.get(&b"k".to_vec()), None);
    assert_eq!(engine.index_offset(&b"k".to_vec()), None);
}

#[test]
fn resurrect_after_delete() {
    let mut engine = open(b"");
    engine.insert(b"k".to_vec(), b"v1".to_vec()).unwrap();
    engine.remove(&b"k".to_vec());
    engine.insert(b"k".to_vec(), b"v2".to_vec()).unwrap();
    assert_eq!(engine.get(&b"k".to_vec()), Some(b"v2".to_vec()));
}

#[test]
fn delete_of_absent_key_appends_tombstone() {
    let mut engine = open(b"");
    let prev = engine.remove(&b"ghost".to_vec());
    assert_eq!(prev, None);
    assert_eq!(whole_log(&engine), b"ghost\t__DELETED__\n".to_vec());
}

#[test]
fn recovery_equivalence() {
    let mut engine = open(b"");
    engine.insert(b"a".to_vec(), b"1".to_vec()).unwrap();
    engine.insert(b"b".to_vec(), b"2".to_vec()).unwrap();
    engine.insert(b"a".to_vec(), b"3".to_vec()).unwrap();
    engine.remove(&b"b".to_vec());
    engine.insert(b"c".to_vec(), b"4".to_vec()).unwrap();

    let reopened = open(&whole_log(&engine));
    for key in [b"a".to_vec(), b"b".to_vec(), b"c".to_vec(), b"d".to_vec()] {
        assert_eq!(reopened.get(&key), engine.get(&key));
        assert_eq!(reopened.index_offset(&key), engine.index_offset(&key));
    }
    assert_eq!(reopened.cursor(), engine.cursor());
}

#[test]
fn malformed_line_is_skipped() {
    let engine = open(b"a\t1\nno tab here\nb\t2\n");
    assert_eq!(engine.get(&b"a".to_vec()), Some(b"1".to_vec()));
    assert_eq!(engine.get(&b"b".to_vec()), Some(b"2".to_vec()));
    assert_eq!(engine.get(&b"no tab here".to_vec()), None);
    assert_eq!(engine.get(&b"no".to_vec()), None);
    assert_eq!(engine.cursor(), 20);
}

#[test]
fn concrete_scenario() {
    let mut engine = open(b"");
    engine.insert(b"a".to_vec(), b"1".to_vec()).unwrap();
    engine.insert(b"b".to_vec(), b"2".to_vec()).unwrap();
    engine.remove(&b"a".to_vec());
    engine.insert(b"a".to_vec(), b"3".to_vec()).unwrap();

    let reopened = open(&whole_log(&engine));
    assert_eq!(reopened.get(&b"a".to_vec()), Some(b"3".to_vec()));
    assert_eq!(reopened.get(&b"b".to_vec()), Some(b"2".to_vec()));
    assert_eq!(
        whole_log(&reopened),
        b"a\t1\nb\t2\na\t__DELETED__\na\t3\n".to_vec()
    );
    let file = whole_log(&reopened);
    let lines: Vec<&[u8]> = file.split(|&b| b == b'\n').filter(|l| !l.is_empty()).collect();
    assert_eq!(lines.len(), 4);
    assert_eq!(lines[0], b"a\t1");
    assert_eq!(lines[1], b"b\t2");
    assert_eq!(lines[2], b"a\t__DELETED__");
    assert_eq!(lines[3], b"a\t3");
}

#[test]
fn later_record_wins_on_replay() {
    let engine = open(b"k\told\nk\tnew\n");
    assert_eq!(engine.get(&b"k".to_vec()), Some(b"new".to_vec()));
    assert_eq!(engine.index_offset(&b"k".to_vec()), Some(6));
}

#[test]
fn replayed_tombstone_hides_key() {
    let engine = open(b"k\tv\nk\t__DELETED__\n");
    assert_eq!(engine.get(&b"k".to_vec()), None);
}

#[test]
fn tombstone_for_unknown_key_is_harmless() {
    let engine = open(b"other\t__DELETED__\nk\tv\n");
    assert_eq!(engine.get(&b"k".to_vec()), Some(b"v".to_vec()));
    assert_eq!(engine.get(&b"other".to_vec()), None);
}

#[test]
fn torn_final_line_is_sealed() {
    // a torn final write without its terminator: opening seals it with one
    let mut engine = open(b"a\t1\nb\t2");
    assert_eq!(engine.cursor(), 8);
    assert_eq!(whole_log(&engine), b"a\t1\nb\t2\n".to_vec());
    // later appends start on a fresh line
    engine.insert(b"c".to_vec(), b"3".to_vec()).unwrap();
    assert_eq!(engine.get(&b"c".to_vec()), Some(b"3".to_vec()));
    assert_eq!(whole_log(&engine), b"a\t1\nb\t2\nc\t3\n".to_vec());
}

#[test]
fn torn_line_without_tab_adds_no_entry() {
    let engine = open(b"a\t1\njunk");
    assert_eq!(engine.get(&b"a".to_vec()), Some(b"1".to_vec()));
    assert_eq!(engine.get(&b"junk".to_vec()), None);
    assert_eq!(engine.cursor(), 9);
}

#[test]
fn invalid_keys_are_rejected() {
    let mut engine = open(b"");
    assert_eq!(
        engine.insert(b"bad\tkey".to_vec(), b"v".to_vec()),
        Err(StoreError::InvalidKey)
    );
    assert_eq!(
        engine.insert(b"bad\nkey".to_vec(), b"v".to_vec()),
        Err(StoreError::InvalidKey)
    );
    assert_eq!(engine.cursor(), 0);
    assert_eq!(whole_log(&engine), Vec::<u8>::new());
}

#[test]
fn invalid_values_are_rejected() {
    let mut engine = open(b"");
    assert_eq!(
        engine.insert(b"k".to_vec(), b"bad\tvalue".to_vec()),
        Err(StoreError::InvalidValue)
    );
    assert_eq!(
        engine.insert(b"k".to_vec(), b"bad\nvalue".to_vec()),
        Err(StoreError::InvalidValue)
    );
    assert_eq!(
        engine.insert(b"k".to_vec(), b"__DELETED__".to_vec()),
        Err(StoreError::InvalidValue)
    );
    assert_eq!(engine.get(&b"k".to_vec()), None);
}

#[test]
fn remove_with_invalid_key_appends_nothing() {
    let mut engine = open(b"a\t1\n");
    assert_eq!(engine.remove(&b"bad\tkey".to_vec()), None);
    assert_eq!(whole_log(&engine), b"a\t1\n".to_vec());
}

#[test]
fn empty_key_and_empty_value_work() {
    let mut engine = open(b"");
    engine.insert(b"".to_vec(), b"v".to_vec()).unwrap();
    engine.insert(b"k".to_vec(), b"".to_vec()).unwrap();
    assert_eq!(engine.get(&b"".to_vec()), Some(b"v".to_vec()));
    assert_eq!(engine.get(&b"k".to_vec()), Some(b"".to_vec()));
}

#[test]
fn tombstone_as_key_is_allowed() {
    let mut engine = open(b"");
    engine.insert(b"__DELETED__".to_vec(), b"v".to_vec()).unwrap();
    assert_eq!(engine.get(&b"__DELETED__".to_vec()), Some(b"v".to_vec()));
}

#[test]
fn flush_succeeds_and_changes_nothing() {
    let mut engine = open(b"");
    engine.insert(b"k".to_vec(), b"v".to_vec()).unwrap();
    assert_eq!(engine.flush(), Ok(()));
    assert_eq!(engine.get(&b"k".to_vec()), Some(b"v".to_vec()));
}

#[test]
fn recovery_from_dirty_content() {
    // a log with a junk line and a torn tail still replays, and operations
    // on top of it survive a reopen
    let mut engine = open(b"a\t1\nnojunktab\nb\t2\ntorn");
    engine.insert(b"c".to_vec(), b"3".to_vec()).unwrap();
    engine.remove(&b"a".to_vec());
    let reopened = open(&whole_log(&engine));
    for key in [b"a".to_vec(), b"b".to_vec(), b"c".to_vec(), b"torn".to_vec()] {
        assert_eq!(reopened.get(&key), engine.get(&key));
    }
    assert_eq!(reopened.get(&b"b".to_vec()), Some(b"2".to_vec()));
    assert_eq!(reopened.get(&b"c".to_vec()), Some(b"3".to_vec()));
    assert_eq!(reopened.get(&b"a".to_vec()), None);
}

#[test]
fn multi_byte_keys_and_values() {
    let mut engine = open(b"");
    let key = "clé".as_bytes().to_vec();
    let val = "välue".as_bytes().to_vec();
    engine.insert(key.clone(), val.clone()).unwrap();
    let reopened = open(&whole_log(&engine));
    assert_eq!(reopened.get(&key), Some(val));
}

#[test]
fn cursor_tracks_file_length() {
    let mut engine = open(b"");
    assert_eq!(engine.cursor(), 0);
    engine.insert(b"a".to_vec(), b"1".to_vec()).unwrap();
    assert_eq!(engine.cursor(), 4);
    engine.remove(&b"a".to_vec());
    // the tombstone record "a\t__DELETED__\n" is 14 bytes
    assert_eq!(engine.cursor(), 18);
    assert_eq!(whole_log(&engine).len(), 18);
}
