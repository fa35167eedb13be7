use fanout::parser::{parse_header, StackSample, TraceError, TraceParser};

fn chars(s: &str) -> Vec<char> {
    s.chars().collect()
}

fn feed_all(p: &mut TraceParser, lines: &[&str]) -> Result<Vec<StackSample>, TraceError> {
    let mut out = Vec::new();
    for line in lines {
        if let Some(s) = p.feed_line(line)? {
            out.push(s);
        }
    }
    Ok(out)
}

#[test]
fn record_round_trip_trims_body_lines() {
    let mut p = TraceParser::new();
    let out = feed_all(&mut p, &["100 7", "   main  ", " \tworker", " lock\t", ""]).unwrap();
    assert_eq!(out.len(), 1);
    assert_eq!(out[0].timestamp, 100);
    assert_eq!(out[0].thread_id, 7);
    assert_eq!(out[0].chain, vec!["main".to_string(), "worker".to_string(), "lock".to_string()]);
}

#[test]
fn record_without_body_yields_nothing() {
    let mut p = TraceParser::new();
    let out = feed_all(&mut p, &["100 1", "", "200 2", "300 3"]).unwrap();
    assert!(out.is_empty());
    assert!(p.finish().is_none());
}

#[test]
fn next_header_flushes_previous_record() {
    let mut p = TraceParser::new();
    let out = feed_all(&mut p, &["100 1", " a", " b", "200 2", " c"]).unwrap();
    assert_eq!(out.len(), 1);
    assert_eq!(out[0].thread_id, 1);
    assert_eq!(out[0].chain, vec!["a".to_string(), "b".to_string()]);
    let last = p.finish().unwrap();
    assert_eq!(last.timestamp, 200);
    assert_eq!(last.thread_id, 2);
    assert_eq!(last.chain, vec!["c".to_string()]);
}

#[test]
fn malformed_header_is_fatal() {
    let mut p = TraceParser::new();
    assert!(matches!(p.feed_line("abc 1"), Err(TraceError::MalformedHeader)));
}

#[test]
fn header_missing_thread_id_is_fatal() {
    let mut p = TraceParser::new();
    assert!(matches!(p.feed_line("100"), Err(TraceError::MalformedHeader)));
    let mut q = TraceParser::new();
    assert!(matches!(q.feed_line("100 -1"), Err(TraceError::MalformedHeader)));
}

#[test]
fn body_without_header_is_fatal() {
    let mut p = TraceParser::new();
    assert!(matches!(p.feed_line(" a"), Err(TraceError::BodyWithoutHeader)));
}

#[test]
fn diagnostic_lines_are_ignored() {
    let mut p = TraceParser::new();
    let out = feed_all(
        &mut p,
        &["Attaching 1 probe...", "100 1", " a", "Error: lost 3 events", " b", ""],
    )
    .unwrap();
    assert_eq!(out.len(), 1);
    assert_eq!(out[0].chain, vec!["a".to_string(), "b".to_string()]);
}

#[test]
fn header_fields() {
    assert_eq!(parse_header(&chars("  12 34 extra")), Some((12, 34)));
    assert_eq!(parse_header(&chars("+5 6")), Some((5, 6)));
    assert_eq!(parse_header(&chars("18446744073709551615 1")), Some((u64::MAX, 1)));
    assert_eq!(parse_header(&chars("18446744073709551616 1")), None);
    assert_eq!(parse_header(&chars("12")), None);
    assert_eq!(parse_header(&chars("1x 2")), None);
}
