use timelog::clock::TS_MAX;
use timelog::record::{
    EncodeError, FieldId, LogEntry, RecState, decode_line, encode_line,
};

fn entry(
    index: u64,
    start_time: u64,
    description: &str,
    elapsed_seconds: u64,
    paused_seconds: u64,
    state: RecState,
    paused_since: u64,
) -> LogEntry {
    LogEntry {
        index,
        start_time,
        description: description.to_string(),
        elapsed_seconds,
        paused_seconds,
        state,
        paused_since,
    }
}

#[test]
fn encode_epoch_start_is_exact() {
    let e = entry(1, 0, "write spec", 0, 0, RecState::Running, 0);
    let line = encode_line(&e).unwrap();
    assert_eq!(line, "1,01 Jan 1970 00:00:00 +0000,write spec,0,0,running,0");
}

#[test]
fn encode_known_moment_is_exact() {
    // 2003-07-01 10:52:37 UTC
    let e = entry(2, 1057056757, "reading", 15, 3, RecState::Stopped, 0);
    let line = encode_line(&e).unwrap();
    assert_eq!(line, "2,01 Jul 2003 10:52:37 +0000,reading,15,3,stopped,0");
}

#[test]
fn round_trip_running() {
    let e = entry(1, 0, "write spec", 0, 0, RecState::Running, 0);
    let line = encode_line(&e).unwrap();
    let back = decode_line(&line).unwrap();
    assert_eq!(back, e);
}

#[test]
fn round_trip_paused() {
    let e = entry(3, 1057056757, "think", 0, 41, RecState::Paused, 1057056800);
    let line = encode_line(&e).unwrap();
    let back = decode_line(&line).unwrap();
    assert_eq!(back, e);
}

#[test]
fn round_trip_stopped_with_large_values() {
    let e = entry(
        12,
        TS_MAX,
        "",
        u64::MAX,
        u64::MAX - 1,
        RecState::Stopped,
        0,
    );
    let line = encode_line(&e).unwrap();
    let back = decode_line(&line).unwrap();
    assert_eq!(back, e);
}

#[test]
fn round_trip_unicode_description() {
    let e = entry(1, 123456789, "répétition à 10h", 0, 0, RecState::Running, 0);
    let line = encode_line(&e).unwrap();
    let back = decode_line(&line).unwrap();
    assert_eq!(back, e);
}

#[test]
fn chrono_reads_the_start_field_back() {
    let e = entry(1, 1057056757, "cross-check", 0, 0, RecState::Running, 0);
    let line = encode_line(&e).unwrap();
    let start_field = line.split(',').nth(1).unwrap();
    let parsed = chrono::DateTime::parse_from_rfc2822(start_field).unwrap();
    assert_eq!(parsed.timestamp(), 1057056757);
}

#[test]
fn encode_rejects_zero_index() {
    let e = entry(0, 0, "x", 0, 0, RecState::Running, 0);
    assert_eq!(encode_line(&e), Err(EncodeError::InvalidIndex));
}

#[test]
fn encode_rejects_out_of_range_start() {
    let e = entry(1, TS_MAX + 1, "x", 0, 0, RecState::Running, 0);
    assert_eq!(encode_line(&e), Err(EncodeError::InvalidStartTime));
}

#[test]
fn encode_rejects_separator_in_description() {
    let e = entry(1, 0, "a,b", 0, 0, RecState::Running, 0);
    assert_eq!(encode_line(&e), Err(EncodeError::InvalidDescription));
    let e = entry(1, 0, "a\nb", 0, 0, RecState::Running, 0);
    assert_eq!(encode_line(&e), Err(EncodeError::InvalidDescription));
}

#[test]
fn encode_rejects_stray_pause_moment() {
    let e = entry(1, 0, "x", 0, 0, RecState::Running, 7);
    assert_eq!(encode_line(&e), Err(EncodeError::InvalidPausedSince));
    let e = entry(1, 0, "x", 0, 0, RecState::Paused, TS_MAX + 1);
    assert_eq!(encode_line(&e), Err(EncodeError::InvalidPausedSince));
}

#[test]
fn decode_rejects_wrong_field_count() {
    assert_eq!(decode_line("1,2,3"), Err(FieldId::FieldCount));
    assert_eq!(
        decode_line("1,01 Jan 1970 00:00:00 +0000,x,0,0,running,0,extra"),
        Err(FieldId::FieldCount)
    );
}

#[test]
fn decode_rejects_bad_index() {
    assert_eq!(
        decode_line("x,01 Jan 1970 00:00:00 +0000,task,0,0,running,0"),
        Err(FieldId::Index)
    );
    assert_eq!(
        decode_line("0,01 Jan 1970 00:00:00 +0000,task,0,0,running,0"),
        Err(FieldId::Index)
    );
    assert_eq!(
        decode_line(",01 Jan 1970 00:00:00 +0000,task,0,0,running,0"),
        Err(FieldId::Index)
    );
}

#[test]
fn decode_rejects_bad_start_time() {
    assert_eq!(decode_line("1,not a date,task,0,0,running,0"), Err(FieldId::StartTime));
    // an impossible calendar day
    assert_eq!(
        decode_line("1,30 Feb 2001 10:00:00 +0000,task,0,0,running,0"),
        Err(FieldId::StartTime)
    );
    // parseable but before the epoch
    assert_eq!(
        decode_line("1,01 Jan 1960 00:00:00 +0000,task,0,0,running,0"),
        Err(FieldId::StartTime)
    );
}

#[test]
fn decode_rejects_bad_durations() {
    assert_eq!(
        decode_line("1,01 Jan 1970 00:00:00 +0000,task,abc,0,running,0"),
        Err(FieldId::ElapsedSeconds)
    );
    assert_eq!(
        decode_line("1,01 Jan 1970 00:00:00 +0000,task,0,-1,running,0"),
        Err(FieldId::PausedSeconds)
    );
    // one past u64::MAX overflows
    assert_eq!(
        decode_line("1,01 Jan 1970 00:00:00 +0000,task,18446744073709551616,0,running,0"),
        Err(FieldId::ElapsedSeconds)
    );
}

#[test]
fn decode_rejects_unknown_state_word() {
    assert_eq!(
        decode_line("1,01 Jan 1970 00:00:00 +0000,task,0,0,sleeping,0"),
        Err(FieldId::State)
    );
}

#[test]
fn decode_rejects_inconsistent_pause_moment() {
    assert_eq!(
        decode_line("1,01 Jan 1970 00:00:00 +0000,task,0,0,running,5"),
        Err(FieldId::PausedSince)
    );
    assert_eq!(
        decode_line("1,01 Jan 1970 00:00:00 +0000,task,0,0,paused,nope"),
        Err(FieldId::PausedSince)
    );
}

#[test]
fn decode_accepts_a_paused_record() {
    let e = decode_line("4,01 Jan 1970 00:00:10 +0000,waiting,0,2,paused,60").unwrap();
    assert_eq!(e.index, 4);
    assert_eq!(e.start_time, 10);
    assert_eq!(e.description, "waiting");
    assert_eq!(e.paused_seconds, 2);
    assert_eq!(e.state, RecState::Paused);
    assert_eq!(e.paused_since, 60);
}
