//! The records of crashes: their names, their text and which of them stay.

use chrono::{FixedOffset, TimeZone};
use mikui::diag::{
    crash_files, crashes_to_prune, file_name, is_crash_file, latest_crash, record, Crash,
    LocalTime, KEEP_FILES,
};

fn at(day: u32, hour: u32, second: u32) -> LocalTime {
    LocalTime {
        year: 2026,
        month: 9,
        day,
        hour,
        minute: 0,
        second,
        milli: 0,
        offset_seconds: 3 * 3600,
    }
}

#[test]
fn the_name_carries_a_sortable_time_and_no_colons() {
    let name = file_name(&at(16, 15, 22));

    assert!(name.starts_with("panic-2026-09-16_15-00-22"), "{name}");
    assert!(name.ends_with(".log"), "{name}");
    assert!(!name.contains(':'), "{name}");
}

#[test]
fn names_sort_the_same_way_as_time() {
    assert!(file_name(&at(9, 23, 59)) < file_name(&at(10, 0, 0)));
}

#[test]
fn each_crash_gets_its_own_file() {
    let names = vec![file_name(&at(16, 10, 1)), file_name(&at(16, 10, 0))];
    let found = crash_files(&names);
    assert_eq!(found.len(), 2);
    assert_eq!(found.last(), Some(&file_name(&at(16, 10, 1))));
    assert_eq!(latest_crash(&names), Some(file_name(&at(16, 10, 1))));
}

#[test]
fn pruning_keeps_the_newest_and_touches_nothing_else() {
    let mut names = vec!["notes.txt".to_string()];
    for i in 0..(KEEP_FILES as u32 + 5) {
        names.push(file_name(&at(16, 10, i)));
    }
    let gone = crashes_to_prune(&names);
    names.retain(|n| !gone.contains(n));

    let found = crash_files(&names);
    assert_eq!(found.len(), KEEP_FILES);
    assert_eq!(found.last(), Some(&file_name(&at(16, 10, KEEP_FILES as u32 + 4))));
    assert!(names.contains(&"notes.txt".to_string()));
    assert!(crashes_to_prune(&names).is_empty());
}

#[test]
fn the_name_is_exact() {
    let mut t = at(6, 5, 4);
    t.milli = 37;
    t.minute = 9;
    assert_eq!(file_name(&t), "panic-2026-09-06_05-09-04.037.log");
}

#[test]
fn only_files_of_crashes_are_known_as_such() {
    for name in ["panic-.log", "panic-x.log"] {
        assert!(is_crash_file(name), "{name}");
    }
    for name in ["", "panic-", ".log", "panic-x.txt", "apanic-x.log", "panic.log", "PANIC-x.log"] {
        assert!(!is_crash_file(name), "{name}");
    }
}

#[test]
fn no_crashes_no_latest_crash() {
    assert_eq!(latest_crash(&vec![]), None);
    assert_eq!(latest_crash(&vec!["notes.txt".to_string()]), None);
}

fn crash() -> Crash<'static> {
    Crash {
        when: at(16, 15, 22),
        version: "1.2.3",
        os: "linux",
        thread: Some("kafka-worker"),
        location: Some(("src/store.rs", 12, 34)),
        message: Some("out of bounds"),
        trace: "0: frame",
    }
}

#[test]
fn a_record_says_when_where_and_why() {
    assert_eq!(
        record(&crash()),
        "=== 2026-09-16 15:00:22.000 +03:00 | mikui 1.2.3 | linux | thread kafka-worker ===\n\
         panicked at src/store.rs:12:34\n\
         out of bounds\n\
         \n\
         0: frame\n"
    );
}

#[test]
fn what_is_not_known_of_a_crash_is_said_so() {
    let mut c = crash();
    c.when.offset_seconds = -(3 * 3600 + 30 * 60);
    c.thread = None;
    c.location = None;
    c.message = None;
    assert_eq!(
        record(&c),
        "=== 2026-09-16 15:00:22.000 -03:30 | mikui 1.2.3 | linux | thread <unnamed> ===\n\
         panicked at an unknown location\n\
         <unknown reason>\n\
         \n\
         0: frame\n"
    );
}

#[test]
fn the_calendar_is_known() {
    let date = |year, month, day| LocalTime { year, month, day, ..at(1, 0, 0) };
    for (y, m, d) in [(2024, 2, 29), (2000, 2, 29), (2026, 4, 30), (0, 1, 1), (9999, 12, 31)] {
        let t = date(y, m, d);
        assert!(t.is_valid());
        assert_eq!(file_name(&t), format!("panic-{y:04}-{m:02}-{d:02}_00-00-00.000.log"));
    }
    for (y, m, d) in [(2026, 2, 29), (1900, 2, 29), (2026, 4, 31), (2026, 13, 1), (10000, 1, 1)] {
        assert!(!date(y, m, d).is_valid());
    }
}

#[test]
fn the_time_of_a_record_is_that_of_the_calendar_library() {
    for seconds in [-86_399, -12_345, -29, 0, 29, 30, 19_800, 86_399] {
        let mut c = crash();
        c.when.offset_seconds = seconds;
        let moment = FixedOffset::east_opt(seconds)
            .unwrap()
            .with_ymd_and_hms(2026, 9, 16, 15, 0, 22)
            .unwrap();
        let wanted = format!("=== {} | mikui", moment.format("%Y-%m-%d %H:%M:%S%.3f %:z"));
        assert!(record(&c).starts_with(&wanted), "{wanted}");
    }
}
