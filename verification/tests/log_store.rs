use timelog::record::{FieldId, LogEntry, RecState};
use timelog::store::{DecodeError, LogBook, StoreError};

const HEADER: &str = "Index,Start Time,Task Description,Elapsed Time (seconds),Paused Duration (seconds),State,Paused Since";

#[test]
fn empty_text_is_an_empty_log() {
    let book = LogBook::decode("").unwrap();
    assert_eq!(book.len(), 0);
}

#[test]
fn empty_log_encodes_to_header_only() {
    let book = LogBook::new();
    let text = book.encode().unwrap();
    assert_eq!(text, format!("{}\n", HEADER));
}

#[test]
fn header_only_text_is_an_empty_log() {
    let text = format!("{}\n", HEADER);
    let book = LogBook::decode(&text).unwrap();
    assert_eq!(book.len(), 0);
}

#[test]
fn append_assigns_contiguous_indices() {
    let mut book = LogBook::new();
    assert_eq!(book.append("one".to_string(), 100).unwrap(), 1);
    assert_eq!(book.append("two".to_string(), 200).unwrap(), 2);
    assert_eq!(book.append("three".to_string(), 300).unwrap(), 3);
    let entries = book.list();
    for (k, e) in entries.iter().enumerate() {
        assert_eq!(e.index, (k + 1) as u64);
    }
    assert_eq!(book.last_index(), Some(3));
}

#[test]
fn append_rejects_separator_in_description() {
    let mut book = LogBook::new();
    assert!(book.append("a,b".to_string(), 0).is_err());
    assert_eq!(book.len(), 0);
}

#[test]
fn find_hits_and_misses() {
    let mut book = LogBook::new();
    book.append("one".to_string(), 100).unwrap();
    book.append("two".to_string(), 200).unwrap();
    assert_eq!(book.find(2).unwrap().description, "two");
    assert!(book.find(0).is_none());
    assert!(book.find(3).is_none());
}

#[test]
fn replace_touches_only_its_record() {
    let mut book = LogBook::new();
    book.append("one".to_string(), 100).unwrap();
    book.append("two".to_string(), 200).unwrap();
    let swapped = LogEntry {
        index: 2,
        start_time: 200,
        description: "two again".to_string(),
        elapsed_seconds: 9,
        paused_seconds: 1,
        state: RecState::Stopped,
        paused_since: 0,
    };
    book.replace(2, swapped.clone()).unwrap();
    assert_eq!(book.list()[1], swapped);
    assert_eq!(book.list()[0].description, "one");
    let missing = LogEntry { index: 5, ..swapped };
    assert_eq!(book.replace(5, missing), Err(StoreError::NotFound));
}

#[test]
fn delete_renumbers_following_records() {
    let mut book = LogBook::new();
    book.append("one".to_string(), 100).unwrap();
    book.append("two".to_string(), 200).unwrap();
    book.append("three".to_string(), 300).unwrap();
    book.delete(2).unwrap();
    assert_eq!(book.len(), 2);
    assert_eq!(book.list()[0].description, "one");
    assert_eq!(book.list()[0].index, 1);
    assert_eq!(book.list()[1].description, "three");
    assert_eq!(book.list()[1].index, 2);
    assert_eq!(book.delete(3), Err(StoreError::NotFound));
}

#[test]
fn contiguity_survives_mixed_appends_and_deletes() {
    let mut book = LogBook::new();
    for k in 0..5u64 {
        book.append(format!("task {}", k), 100 + k).unwrap();
    }
    book.delete(1).unwrap();
    book.delete(3).unwrap();
    book.append("late".to_string(), 900).unwrap();
    let entries = book.list();
    assert_eq!(entries.len(), 4);
    for (k, e) in entries.iter().enumerate() {
        assert_eq!(e.index, (k + 1) as u64);
    }
}

#[test]
fn file_round_trip_keeps_every_record() {
    let mut book = LogBook::new();
    book.append("one".to_string(), 100).unwrap();
    book.append("two words".to_string(), 200).unwrap();
    book.append("third task".to_string(), 300).unwrap();
    let text = book.encode().unwrap();
    let back = LogBook::decode(&text).unwrap();
    assert_eq!(back.list(), book.list());
    assert_eq!(back.encode().unwrap(), text);
}

#[test]
fn decode_rejects_a_wrong_header() {
    let text = "Index,Start Time\n1,01 Jan 1970 00:00:00 +0000,x,0,0,running,0\n";
    assert_eq!(LogBook::decode(text), Err(DecodeError::BadHeader));
}

#[test]
fn decode_rejects_a_missing_final_newline() {
    let text = format!("{}\n1,01 Jan 1970 00:00:00 +0000,x,0,0,running,0", HEADER);
    assert_eq!(LogBook::decode(&text), Err(DecodeError::MissingNewline));
    assert_eq!(LogBook::decode(HEADER), Err(DecodeError::MissingNewline));
}

#[test]
fn decode_names_the_bad_line_and_field() {
    let text = format!(
        "{}\n1,01 Jan 1970 00:00:00 +0000,x,0,0,running,0\n2,01 Jan 1970 00:00:00 +0000,y,zz,0,running,0\n",
        HEADER
    );
    assert_eq!(
        LogBook::decode(&text),
        Err(DecodeError::Malformed { line: 3, field: FieldId::ElapsedSeconds })
    );
}

#[test]
fn decode_rejects_non_contiguous_indices() {
    let text = format!("{}\n2,01 Jan 1970 00:00:00 +0000,x,0,0,running,0\n", HEADER);
    assert_eq!(
        LogBook::decode(&text),
        Err(DecodeError::Malformed { line: 2, field: FieldId::Index })
    );
}

#[test]
fn decode_does_not_default_a_missing_field() {
    // six fields only: the paused-duration column is missing
    let text = format!("{}\n1,01 Jan 1970 00:00:00 +0000,x,0,running,0\n", HEADER);
    assert_eq!(
        LogBook::decode(&text),
        Err(DecodeError::Malformed { line: 2, field: FieldId::FieldCount })
    );
}
