use timelog::clock::{TS_MAX, current_epoch};
use timelog::config::{ConfigData, manage_config};
use timelog::record::RecState;
use timelog::store::LogBook;
use timelog::timer::{Timer, TimerError};

const HEADER: &str = "Index,Start Time,Task Description,Elapsed Time (seconds),Paused Duration (seconds),State,Paused Since";

#[test]
fn full_scenario_on_an_empty_file() {
    let t0: u64 = 1_057_056_757;
    let timer = Timer::new();

    // start on an empty file: index 1, header plus one fresh row
    let mut book = LogBook::decode("").unwrap();
    let index = timer.start(&mut book, "write spec".to_string(), t0).unwrap();
    assert_eq!(index, 1);
    let text = book.encode().unwrap();
    assert_eq!(
        text,
        format!("{}\n1,01 Jul 2003 10:52:37 +0000,write spec,0,0,running,0\n", HEADER)
    );

    // pause, then resume two seconds later: two paused seconds on record
    let mut book = LogBook::decode(&text).unwrap();
    timer.pause(&mut book, 1, t0 + 5).unwrap();
    let mut book = LogBook::decode(&book.encode().unwrap()).unwrap();
    timer.resume(&mut book, 1, t0 + 7).unwrap();
    assert_eq!(book.find(1).unwrap().paused_seconds, 2);
    assert_eq!(book.find(1).unwrap().state, RecState::Running);

    // stop three seconds later: elapsed is the wall time less the pause
    let mut book = LogBook::decode(&book.encode().unwrap()).unwrap();
    timer.stop(&mut book, 1, t0 + 10).unwrap();
    let stopped = book.find(1).unwrap();
    assert_eq!(stopped.elapsed_seconds, 10 - 2);
    assert_eq!(stopped.paused_seconds, 2);
    assert_eq!(stopped.state, RecState::Stopped);

    // delete the only record: the file is header-only again
    let mut book = LogBook::decode(&book.encode().unwrap()).unwrap();
    book.delete(1).unwrap();
    assert_eq!(book.encode().unwrap(), format!("{}\n", HEADER));
}

#[test]
fn stop_is_terminal() {
    let timer = Timer::new();
    let mut book = LogBook::new();
    timer.start(&mut book, "task".to_string(), 100).unwrap();
    timer.stop(&mut book, 1, 150).unwrap();
    assert_eq!(timer.pause(&mut book, 1, 160), Err(TimerError::AlreadyStopped));
    assert_eq!(timer.resume(&mut book, 1, 170), Err(TimerError::AlreadyStopped));
    assert_eq!(timer.stop(&mut book, 1, 180), Err(TimerError::AlreadyStopped));
    assert_eq!(book.find(1).unwrap().elapsed_seconds, 50);
}

#[test]
fn transition_guards() {
    let timer = Timer::new();
    let mut book = LogBook::new();
    timer.start(&mut book, "task".to_string(), 100).unwrap();
    assert_eq!(timer.pause(&mut book, 2, 110), Err(TimerError::NotFound));
    assert_eq!(timer.resume(&mut book, 1, 110), Err(TimerError::NotPaused));
    timer.pause(&mut book, 1, 110).unwrap();
    assert_eq!(timer.pause(&mut book, 1, 120), Err(TimerError::AlreadyPaused));
    timer.resume(&mut book, 1, 130).unwrap();
    assert_eq!(book.find(1).unwrap().paused_seconds, 20);
}

#[test]
fn paused_seconds_never_decrease() {
    let timer = Timer::new();
    let mut book = LogBook::new();
    timer.start(&mut book, "task".to_string(), 0).unwrap();
    let mut previous: u64 = 0;
    let mut clock: u64 = 10;
    for gap in [0u64, 3, 1, 0, 7] {
        timer.pause(&mut book, 1, clock).unwrap();
        clock += gap;
        timer.resume(&mut book, 1, clock).unwrap();
        clock += 2;
        let paused = book.find(1).unwrap().paused_seconds;
        assert!(paused >= previous);
        previous = paused;
    }
    assert_eq!(previous, 11);
}

#[test]
fn pause_resume_at_one_moment_is_byte_identical() {
    let timer = Timer::new();
    let mut book = LogBook::new();
    timer.start(&mut book, "one".to_string(), 50).unwrap();
    timer.start(&mut book, "two".to_string(), 60).unwrap();
    let before = book.encode().unwrap();
    timer.pause(&mut book, 2, 70).unwrap();
    timer.resume(&mut book, 2, 70).unwrap();
    assert_eq!(book.encode().unwrap(), before);
}

#[test]
fn stop_while_paused_folds_the_open_interval() {
    let timer = Timer::new();
    let mut book = LogBook::new();
    timer.start(&mut book, "task".to_string(), 100).unwrap();
    timer.pause(&mut book, 1, 110).unwrap();
    timer.stop(&mut book, 1, 115).unwrap();
    let e = book.find(1).unwrap();
    assert_eq!(e.paused_seconds, 5);
    assert_eq!(e.elapsed_seconds, 10);
}

#[test]
fn elapsed_readings_by_state() {
    let timer = Timer::new();
    let mut book = LogBook::new();
    timer.start(&mut book, "task".to_string(), 100).unwrap();
    assert_eq!(timer.get_elapsed_time(&book, 1, 130), Ok(30));
    assert_eq!(timer.get_elapsed_time(&book, 2, 130), Err(TimerError::NotFound));
    timer.pause(&mut book, 1, 130).unwrap();
    timer.resume(&mut book, 1, 140).unwrap();
    assert_eq!(timer.get_elapsed_time(&book, 1, 150), Ok(40));
    timer.pause(&mut book, 1, 150).unwrap();
    // while paused the reading is the paused accumulator
    assert_eq!(timer.get_elapsed_time(&book, 1, 200), Ok(10));
    timer.resume(&mut book, 1, 160).unwrap();
    timer.stop(&mut book, 1, 170).unwrap();
    // once stopped the reading is the stored elapsed time
    assert_eq!(timer.get_elapsed_time(&book, 1, 500), Ok(50));
}

#[test]
fn update_helpers_write_the_addressed_fields() {
    let timer = Timer::new();
    let mut book = LogBook::new();
    timer.start(&mut book, "task".to_string(), 100).unwrap();
    timer.update_log_entry_with_paused_time(&mut book, 1, 9).unwrap();
    let e = book.find(1).unwrap();
    assert_eq!(e.paused_seconds, 9);
    assert_eq!(e.state, RecState::Running);
    timer.update_log_entry_with_elapsed_time(&mut book, 1, 77, 9).unwrap();
    let e = book.find(1).unwrap();
    assert_eq!(e.elapsed_seconds, 77);
    assert_eq!(e.state, RecState::Stopped);
    assert_eq!(
        timer.update_log_entry_with_paused_time(&mut book, 2, 1),
        Err(TimerError::NotFound)
    );
    assert_eq!(
        timer.update_log_entry_with_elapsed_time(&mut book, 9, 1, 1),
        Err(TimerError::NotFound)
    );
}

#[test]
fn a_clock_running_backwards_adds_nothing() {
    let timer = Timer::new();
    let mut book = LogBook::new();
    timer.start(&mut book, "task".to_string(), 100).unwrap();
    timer.pause(&mut book, 1, 110).unwrap();
    timer.resume(&mut book, 1, 90).unwrap();
    assert_eq!(book.find(1).unwrap().paused_seconds, 0);
}

#[test]
fn current_epoch_is_storable() {
    let now = current_epoch();
    assert!(now <= TS_MAX);
    // the clock reads a moment after this test was written
    assert!(now > 1_700_000_000);
}

#[test]
fn manage_config_prefers_the_explicit_path() {
    let cfg = ConfigData { output_file: Some("configured.txt".to_string()) };
    let (kept, chosen, save) = manage_config(Some("explicit.txt".to_string()), cfg);
    assert_eq!(kept.output_file.as_deref(), Some("explicit.txt"));
    assert_eq!(chosen, "explicit.txt");
    assert!(save);
}

#[test]
fn manage_config_falls_back_to_the_configured_path() {
    let cfg = ConfigData { output_file: Some("configured.txt".to_string()) };
    let (kept, chosen, save) = manage_config(None, cfg);
    assert_eq!(kept.output_file.as_deref(), Some("configured.txt"));
    assert_eq!(chosen, "configured.txt");
    assert!(!save);
}

#[test]
fn manage_config_defaults_when_nothing_is_set() {
    let cfg = ConfigData { output_file: None };
    let (kept, chosen, save) = manage_config(None, cfg);
    assert!(kept.output_file.is_none());
    assert_eq!(chosen, "default_output.txt");
    assert!(!save);
}
