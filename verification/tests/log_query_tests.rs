use oisy_trade::log_query::{log_query, parse_dec_u64, InvalidTimeParameter, LogPriority, LogQuery, LogSort};

#[test]
fn time_is_read_as_u64_from_str_reads_it() {
    for s in ["0", "42", "+7", "18446744073709551615", "", "+", "-1", " 1", "1a", "18446744073709551616"] {
        assert_eq!(parse_dec_u64(s), s.parse::<u64>().ok(), "{:?}", s);
    }
}

#[test]
fn a_bad_time_parameter_is_refused() {
    assert_eq!(log_query(Some("soon"), None, None), Err(InvalidTimeParameter));
}

#[test]
fn default_sort_depends_on_the_time_parameter() {
    assert_eq!(
        log_query(None, None, None),
        Ok(LogQuery { min_timestamp: 0, priority: None, sort: LogSort::Ascending })
    );
    assert_eq!(
        log_query(Some("5"), None, Some(None)),
        Ok(LogQuery { min_timestamp: 5, priority: None, sort: LogSort::Descending })
    );
    assert_eq!(
        log_query(Some("5"), Some(Some(LogPriority::Debug)), Some(Some(LogSort::Ascending))),
        Ok(LogQuery { min_timestamp: 5, priority: Some(LogPriority::Debug), sort: LogSort::Ascending })
    );
}

#[test]
fn entries_older_than_the_time_or_of_another_priority_are_left_out() {
    let q = log_query(Some("10"), Some(Some(LogPriority::Info)), None).unwrap();
    assert!(q.shows(10, LogPriority::Info));
    assert!(!q.shows(9, LogPriority::Info));
    assert!(!q.shows(10, LogPriority::Debug));
    let all = log_query(None, Some(None), None).unwrap();
    assert!(all.shows(0, LogPriority::Debug));
}
