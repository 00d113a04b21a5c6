use git_credential_helper::providers::github_app::{fallback_expiry, parse_expires_at, token_expiry};
use git_credential_helper::timestamp::{
    arithmetic_fits_exec, parse_rfc3339, parse_timestamp_fields, timestamp_fits_exec, to_unix_seconds,
    Timestamp,
};

#[test]
fn epoch_is_zero() {
    assert_eq!(parse_rfc3339("1970-01-01T00:00:00Z"), Some(0));
}

#[test]
fn github_style_timestamp() {
    assert_eq!(parse_rfc3339("2024-01-15T10:30:00Z"), Some(1705314600));
}

#[test]
fn leap_day() {
    assert_eq!(parse_rfc3339("2000-02-29T12:00:00Z"), Some(951825600));
}

#[test]
fn century_not_leap() {
    assert_eq!(parse_rfc3339("2100-03-01T00:00:00Z"), Some(4107542400));
}

#[test]
fn before_epoch_is_none() {
    assert_eq!(parse_rfc3339("1969-12-31T23:59:59Z"), None);
}

#[test]
fn malformed_timestamps_are_none() {
    assert_eq!(parse_rfc3339("2024-01-15T10:30:00"), None);
    assert_eq!(parse_rfc3339("2024-01-15 10:30:00Z"), None);
    assert_eq!(parse_rfc3339("2024-01-15T10:30:00.123Z"), None);
    assert_eq!(parse_rfc3339("2024-01-15T10:30:00+00:00"), None);
    assert_eq!(parse_rfc3339("2024-01T10:30:00Z"), None);
    assert_eq!(parse_rfc3339("2024-01-15T10:30Z"), None);
    assert_eq!(parse_rfc3339("2024-01-15-01T10:30:00Z"), None);
    assert_eq!(parse_rfc3339("-2024-01-15T10:30:00Z"), None);
    assert_eq!(parse_rfc3339("2024-+-15T10:30:00Z"), None);
    assert_eq!(parse_rfc3339(""), None);
    assert_eq!(parse_rfc3339("Z"), None);
}

#[test]
fn plus_signs_are_accepted_as_u64_parsing_does() {
    assert_eq!(parse_rfc3339("+2024-+01-+15T+10:+30:+00Z"), Some(1705314600));
}

#[test]
fn fields_are_not_range_checked() {
    // Month 13, day 45 is counted on from the formula, as the conversion does.
    assert_eq!(parse_rfc3339("2024-13-45T00:00:00Z"), Some(1739491200));
    assert_eq!(parse_rfc3339("2024-02-30T00:00:00Z"), Some(1709251200));
}

#[test]
fn fields_are_read() {
    let t = parse_timestamp_fields("2024-01-15T10:30:07Z").unwrap();
    assert_eq!((t.year, t.month, t.day, t.hour, t.minute, t.second), (2024, 1, 15, 10, 30, 7));
    assert!(parse_timestamp_fields("2024-01-15T10:30:07").is_none());
}

#[test]
fn overflowing_timestamps_do_not_fit() {
    // Year 0 in January would need the year before year 0.
    assert!(!timestamp_fits_exec("0000-01-01T00:00:00Z"));
    // 1 March with day 0 counts below the start of the year.
    assert!(!timestamp_fits_exec("2024-03-00T00:00:00Z"));
    assert!(!timestamp_fits_exec("18446744073709551615-05-01T00:00:00Z"));
    assert!(!timestamp_fits_exec("2024-01-15T18446744073709551615:00:00Z"));
    assert!(timestamp_fits_exec("2024-01-15T10:30:00Z"));
    assert!(timestamp_fits_exec("not a timestamp"));
    let t = Timestamp { year: 1970, month: 1, day: 1, hour: 0, minute: 0, second: 0 };
    assert!(arithmetic_fits_exec(&t));
    assert_eq!(to_unix_seconds(&t), Some(0));
}

#[test]
fn expiry_of_token_responses() {
    assert_eq!(token_expiry(Some("2024-01-15T10:30:00Z"), 5), Some(1705314600));
    assert_eq!(token_expiry(Some("garbage"), 5), Some(3605));
    assert_eq!(token_expiry(None, 5), Some(3605));
    assert_eq!(token_expiry(Some("0000-01-01T00:00:00Z"), 5), None);
    assert_eq!(fallback_expiry(u64::MAX - 10), u64::MAX);
    assert_eq!(fallback_expiry(100), 3700);
    assert_eq!(parse_expires_at("2024-01-15T10:30:00Z"), 1705314600);
    assert!(parse_expires_at("garbage") >= 3600);
}

#[test]
fn calendar_law_on_concrete_days() {
    // Every day from 1970 to 2030 is one day (86400 s) after the one before.
    let mut prev: Option<u64> = None;
    for y in 1970u64..2031 {
        for m in 1u64..13 {
            let leap = y % 4 == 0 && (y % 100 != 0 || y % 400 == 0);
            let days = match m {
                2 => if leap { 29 } else { 28 },
                4 | 6 | 9 | 11 => 30,
                _ => 31,
            };
            for d in 1..=days {
                let s = format!("{:04}-{:02}-{:02}T00:00:00Z", y, m, d);
                let v = parse_rfc3339(&s).unwrap();
                if let Some(p) = prev {
                    assert_eq!(v, p + 86400, "{}", s);
                } else {
                    assert_eq!(v, 0);
                }
                prev = Some(v);
            }
        }
    }
}
