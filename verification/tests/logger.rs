use power_monitor::current_monitor::{Current, CurrentArray, CurrentType};
use power_monitor::datalogger::{choose_file_name, format_row, DataLogger, TickOutcome, Time};

fn reading() -> CurrentArray {
    CurrentArray::new(vec![
        Current::new(1200),
        Current::new(1000),
        Current::new(9300),
        Current::new(1500),
        Current::new(7600),
    ])
}

fn types() -> Vec<CurrentType> {
    vec![
        CurrentType::Source,
        CurrentType::Drain,
        CurrentType::Drain,
        CurrentType::Unknown,
        CurrentType::Unknown,
    ]
}

fn names() -> Vec<String> {
    vec![
        "Solar".to_string(),
        "House".to_string(),
        "HeatPump".to_string(),
        "Outside".to_string(),
        "Grid".to_string(),
    ]
}

fn logger_at(secs: u64, existing: &Vec<String>) -> DataLogger {
    DataLogger::new_at(60, Time { secs }, types(), names(), existing)
}

#[test]
fn get_day_divides_by_seconds_per_day() {
    assert_eq!(Time { secs: 5 * 86400 + 100 }.get_day(), 5);
    assert_eq!(Time { secs: 0 }.get_day(), 0);
    assert_eq!(Time { secs: 86399 }.get_day(), 0);
    assert_eq!(Time { secs: 86400 }.get_day(), 1);
}

#[test]
fn fresh_day_file_name() {
    assert_eq!(choose_file_name(5, &vec![]), "D5.csv");
}

#[test]
fn colliding_day_file_gets_suffix() {
    // a same-day file from an earlier run stays untouched
    assert_eq!(choose_file_name(5, &vec!["D5.csv".to_string()]), "D5_2.csv");
    assert_eq!(
        choose_file_name(5, &vec!["D5.csv".to_string(), "D5_2.csv".to_string()]),
        "D5_3.csv"
    );
    assert_eq!(choose_file_name(5, &vec!["D6.csv".to_string()]), "D5.csv");
}

#[test]
fn construction_uses_collision_free_name() {
    let lg = logger_at(5 * 86400, &vec!["D5.csv".to_string()]);
    assert_eq!(lg.filename, "D5_2.csv");
    assert_eq!(lg.day, 5);
    assert_eq!(lg.last_logged, None);
}

#[test]
fn header_row_lists_names_and_polarities() {
    let lg = logger_at(0, &vec![]);
    assert_eq!(
        lg.header_line(),
        "Time,Solar (Source),House (Drain),HeatPump (Drain),Outside (Unknown),Grid (Unknown)"
    );
}

#[test]
fn row_has_timestamp_and_cells() {
    assert_eq!(
        format_row(12, 5, 30, &reading()),
        "T120530Z,1.2,1,9.3,1.5,7.6"
    );
    assert_eq!(format_row(0, 0, 0, &reading()), "T000000Z,1.2,1,9.3,1.5,7.6");
}

#[test]
fn second_tick_within_interval_is_throttled() {
    let none: Vec<String> = vec![];
    let mut lg = logger_at(1000, &none);
    let o1 = lg.tick_at(Time { secs: 1000 }, 1, 2, 3, &reading(), &none);
    assert!(matches!(o1, TickOutcome::Wrote { .. }));
    let o2 = lg.tick_at(Time { secs: 1010 }, 1, 2, 13, &reading(), &none);
    assert!(matches!(o2, TickOutcome::Skipped));
    assert_eq!(lg.last_logged, Some(1000));
}

#[test]
fn second_tick_past_interval_writes() {
    let none: Vec<String> = vec![];
    let mut lg = logger_at(1000, &none);
    let o1 = lg.tick_at(Time { secs: 1000 }, 1, 2, 3, &reading(), &none);
    assert!(matches!(o1, TickOutcome::Wrote { .. }));
    let o2 = lg.tick_at(Time { secs: 1061 }, 1, 3, 4, &reading(), &none);
    match o2 {
        TickOutcome::Wrote { row } => assert_eq!(row, "T010304Z,1.2,1,9.3,1.5,7.6"),
        other => panic!("expected Wrote, got {:?}", other),
    }
    assert_eq!(lg.last_logged, Some(1061));
}

#[test]
fn tick_at_exactly_the_interval_writes() {
    let none: Vec<String> = vec![];
    let mut lg = logger_at(1000, &none);
    lg.tick_at(Time { secs: 1000 }, 1, 2, 3, &reading(), &none);
    let o = lg.tick_at(Time { secs: 1060 }, 1, 3, 3, &reading(), &none);
    assert!(matches!(o, TickOutcome::Wrote { .. }));
}

#[test]
fn day_change_on_non_first_tick_rolls_over() {
    let none: Vec<String> = vec![];
    let mut lg = logger_at(0, &none);
    assert_eq!(lg.filename, "D0.csv");
    let o1 = lg.tick_at(Time { secs: 10 }, 0, 0, 10, &reading(), &none);
    assert!(matches!(o1, TickOutcome::Wrote { .. }));
    let o2 = lg.tick_at(Time { secs: 86400 + 70 }, 0, 1, 10, &reading(), &none);
    match o2 {
        TickOutcome::RolledAndWrote { header, row } => {
            assert_eq!(
                header,
                "Time,Solar (Source),House (Drain),HeatPump (Drain),Outside (Unknown),Grid (Unknown)"
            );
            assert_eq!(row, "T000110Z,1.2,1,9.3,1.5,7.6");
        }
        other => panic!("expected RolledAndWrote, got {:?}", other),
    }
    assert_eq!(lg.day, 1);
    assert_eq!(lg.filename, "D1.csv");
}

#[test]
fn first_tick_never_rolls_over() {
    let none: Vec<String> = vec![];
    // built late on day 0, first tick comes on day 1: no rollover
    let mut lg = logger_at(86000, &none);
    assert_eq!(lg.filename, "D0.csv");
    let o = lg.tick_at(Time { secs: 86400 + 5 }, 0, 0, 5, &reading(), &none);
    assert!(matches!(o, TickOutcome::Wrote { .. }));
    assert_eq!(lg.day, 0);
    assert_eq!(lg.filename, "D0.csv");
}

#[test]
fn throttled_tick_still_rolls_the_day_file() {
    let none: Vec<String> = vec![];
    // first write just before midnight, next tick 10 s later in the new day
    let mut lg = logger_at(86395, &none);
    let o1 = lg.tick_at(Time { secs: 86395 }, 23, 59, 55, &reading(), &none);
    assert!(matches!(o1, TickOutcome::Wrote { .. }));
    let o2 = lg.tick_at(Time { secs: 86405 }, 0, 0, 5, &reading(), &none);
    assert!(matches!(o2, TickOutcome::Rolled { .. }));
    assert_eq!(lg.day, 1);
    assert_eq!(lg.filename, "D1.csv");
    // the throttled write left the last-write time alone
    assert_eq!(lg.last_logged, Some(86395));
}

#[test]
fn clock_step_back_across_day_still_rolls() {
    let none: Vec<String> = vec![];
    // built and first written on day 1; the clock then reads day 0
    let mut lg = logger_at(86400 + 100, &none);
    let o1 = lg.tick_at(Time { secs: 86400 + 100 }, 0, 1, 40, &reading(), &none);
    assert!(matches!(o1, TickOutcome::Wrote { .. }));
    let o2 = lg.tick_at(Time { secs: 100 }, 0, 1, 40, &reading(), &none);
    // the day number changed, so the file rolls; the write is throttled
    assert!(matches!(o2, TickOutcome::Rolled { .. }));
    assert_eq!(lg.day, 0);
    assert_eq!(lg.filename, "D0.csv");
    assert_eq!(lg.last_logged, Some(86400 + 100));
}

#[test]
fn live_clock_constructs_and_ticks() {
    let none: Vec<String> = vec![];
    let mut lg = DataLogger::new(60, types(), names(), &none);
    assert!(lg.filename.starts_with('D') && lg.filename.ends_with(".csv"));
    assert_eq!(lg.last_logged, None);
    match lg.tick(&reading(), &none) {
        TickOutcome::Wrote { row } => {
            assert!(row.starts_with('T'));
            assert_eq!(row.chars().nth(7), Some('Z'));
            assert!(row.ends_with("Z,1.2,1,9.3,1.5,7.6"));
        }
        other => panic!("expected Wrote, got {:?}", other),
    }
    assert!(lg.last_logged.is_some());
}

#[test]
fn rollover_respects_existing_files() {
    let existing = vec!["D1.csv".to_string()];
    let mut lg = logger_at(86395, &vec![]);
    lg.tick_at(Time { secs: 86395 }, 23, 59, 55, &reading(), &vec![]);
    let o = lg.tick_at(Time { secs: 86400 + 70 }, 0, 1, 10, &reading(), &existing);
    assert!(matches!(o, TickOutcome::RolledAndWrote { .. }));
    assert_eq!(lg.filename, "D1_2.csv");
}
