use lanthir::logname::{filename_timestamp, generate_logfile_name, log_file_name, Timestamp, Weekday};

fn sample() -> Timestamp {
    Timestamp { year: 2024, month: 3, day: 7, weekday: Weekday::Thu, hour: 9, minute: 5, second: 0 }
}

#[test]
fn timestamp_is_zero_padded() {
    assert_eq!(filename_timestamp(&sample()), "2024-03-07Thu090500");
    let early = Timestamp { year: 7, month: 12, day: 31, weekday: Weekday::Sun, hour: 23, minute: 59, second: 59 };
    assert_eq!(filename_timestamp(&early), "0007-12-31Sun235959");
    let negative = Timestamp { year: -5, month: 1, day: 1, weekday: Weekday::Mon, hour: 0, minute: 0, second: 0 };
    assert_eq!(filename_timestamp(&negative), "-005-01-01Mon000000");
}

#[test]
fn log_name_cuts_digest_to_six() {
    assert_eq!(log_file_name("deploy", "0123456789abcdef", &sample()), "deploy-012345-2024-03-07Thu090500.log");
    assert_eq!(log_file_name("x", "ab", &sample()), "x-ab-2024-03-07Thu090500.log");
}

#[test]
fn log_name_uses_sha256_of_script() {
    assert_eq!(generate_logfile_name("runbook", "abc", &sample()), "runbook-ba7816-2024-03-07Thu090500.log");
    assert_eq!(generate_logfile_name("empty", "", &sample()), "empty-e3b0c4-2024-03-07Thu090500.log");
}
