use prometheus_wire::is_metric_char;
use prometheus_wire::read_label;
use prometheus_wire::read_quoted_string;
use prometheus_wire::read_timestamp;
use prometheus_wire::read_value;
use prometheus_wire::try_read_comment;
use prometheus_wire::try_read_sample;
use prometheus_wire::Comment;
use prometheus_wire::CommentType;
use prometheus_wire::LabelList;
use prometheus_wire::MetricValue;

fn val_f64(v: &MetricValue) -> f64 {
    match v {
        MetricValue::PosInf => f64::INFINITY,
        MetricValue::NegInf => f64::NEG_INFINITY,
        MetricValue::Num(raw) => raw.parse::<f64>().unwrap(),
    }
}

#[test]
fn full_sample_line_with_labels_value_and_timestamp() {
    let line = "http_requests_total{method=\"post\",code=\"200\"} 1.5e3 1395066363000";
    let sd = try_read_sample(line).unwrap();
    assert_eq!(sd.name, String::from("http_requests_total"));
    assert_eq!(sd.labels.get_string("method"), Some(String::from("post")));
    assert_eq!(sd.labels.get_string("code"), Some(String::from("200")));
    assert_eq!(sd.labels.get_string("missing"), None);
    assert_eq!(val_f64(&sd.value), 1500.0);
    assert_eq!(sd.timestamp, Some(1395066363000));
}

#[test]
fn help_comment_line() {
    let line = "# HELP node_cpu_seconds_total Seconds the CPUs spent in each mode.";
    assert_eq!(
        try_read_comment(line),
        Some(Comment::new(
            String::from("node_cpu_seconds_total"),
            CommentType::HELP,
            String::from("Seconds the CPUs spent in each mode.")
        ))
    );
}

#[test]
fn infinite_value_with_negative_timestamp() {
    let sd = try_read_sample("something_weird{problem=\"division by zero\"} +Inf -3982045")
        .unwrap();
    assert_eq!(sd.name, String::from("something_weird"));
    assert_eq!(sd.labels.get_string("problem"), Some(String::from("division by zero")));
    assert_eq!(sd.value, MetricValue::PosInf);
    assert_eq!(sd.timestamp, Some(-3982045));
}

#[test]
fn sample_line_is_not_a_comment() {
    assert_eq!(try_read_comment("metric 12345"), None);
}

#[test]
fn keywordless_comment_is_not_a_sample() {
    assert_eq!(try_read_sample("# test"), None);
}

#[test]
fn unescaped_text_is_returned_unchanged() {
    let (_, v) = read_quoted_string("\"plain value, no escapes\"", 0).unwrap();
    assert_eq!(v, String::from("plain value, no escapes"));
    let (_, v) = read_quoted_string("\"keeps \\n and \\\" verbatim\"", 0).unwrap();
    assert_eq!(v, String::from("keeps \\n and \\\" verbatim"));
}

#[test]
fn infinities_and_scientific_notation() {
    let (_, v) = read_value("+Inf", 0).unwrap();
    assert_eq!(val_f64(&v), f64::INFINITY);
    let (_, v) = read_value("-Inf", 0).unwrap();
    assert_eq!(val_f64(&v), f64::NEG_INFINITY);
    let (_, v) = read_value("1.5e-03", 0).unwrap();
    assert_eq!(val_f64(&v), 0.0015);
}

#[test]
fn absent_timestamp_is_none_not_zero() {
    let sd = try_read_sample("metric_without_stamp 42").unwrap();
    assert_eq!(sd.timestamp, None);
    let (p, t) = read_timestamp("   ", 0);
    assert_eq!((p, t), (0, None));
}

#[test]
fn trailing_comma_fails_the_sample() {
    assert_eq!(try_read_sample("a{x=\"1\",} 5"), None);
    let (p, l) = read_label("{ alfa = \"1\", }", 0);
    assert_eq!((p, l), (0, LabelList::new()));
}

#[test]
fn unknown_comment_keyword_is_rejected() {
    assert_eq!(try_read_comment("# NOTE foo bar"), None);
    assert_eq!(try_read_comment("# HELPER name text"), Some(Comment::new(
        String::from("ER"),
        CommentType::HELP,
        String::from("name text"),
    )));
}

#[test]
fn duplicate_label_names_keep_the_last_value() {
    let sd = try_read_sample("m{a=\"1\",a=\"2\"} 3").unwrap();
    assert_eq!(sd.labels.get_string("a"), Some(String::from("2")));
}

#[test]
fn timestamps_truncate_toward_zero_and_saturate() {
    let sd = try_read_sample("m 1 2.7").unwrap();
    assert_eq!(sd.timestamp, Some(2));
    let sd = try_read_sample("m 1 -2.7").unwrap();
    assert_eq!(sd.timestamp, Some(-2));
    let sd = try_read_sample("m 1 1.5e3").unwrap();
    assert_eq!(sd.timestamp, Some(1500));
    let sd = try_read_sample("m 1 99999999999999999999").unwrap();
    assert_eq!(sd.timestamp, Some(i64::MAX));
    let sd = try_read_sample("m 1 -99999999999999999999").unwrap();
    assert_eq!(sd.timestamp, Some(i64::MIN));
    let sd = try_read_sample("m 1 12e-1").unwrap();
    assert_eq!(sd.timestamp, Some(1));
}

#[test]
fn trailing_garbage_after_a_sample_is_ignored() {
    let sd = try_read_sample("m 5 7 what follows is discarded").unwrap();
    assert_eq!(val_f64(&sd.value), 5.0);
    assert_eq!(sd.timestamp, Some(7));
}

#[test]
fn missing_value_fails_the_sample() {
    assert_eq!(try_read_sample("metric_name_only"), None);
    assert_eq!(try_read_sample("metric{a=\"1\"}"), None);
    assert_eq!(try_read_sample("metric inf"), None);
}

#[test]
fn empty_name_is_still_a_sample() {
    let sd = try_read_sample(" +42").unwrap();
    assert_eq!(sd.name, String::from(""));
    assert_eq!(val_f64(&sd.value), 42.0);
}

#[test]
fn metric_char_class() {
    assert!(is_metric_char('a'));
    assert!(is_metric_char('Z'));
    assert!(is_metric_char('7'));
    assert!(is_metric_char('_'));
    assert!(is_metric_char(':'));
    assert!(is_metric_char('.'));
    assert!(is_metric_char('\u{00e9}'));
    assert!(!is_metric_char('{'));
    assert!(!is_metric_char(' '));
    assert!(!is_metric_char('-'));
}

#[test]
fn lone_backslash_fails_the_quoted_string() {
    assert!(read_quoted_string("\"abc\\", 0).is_none());
    assert!(read_quoted_string("\"abc", 0).is_none());
    assert!(read_quoted_string("\"ab\\x cd\"", 0).is_none());
    assert!(try_read_sample("m{a=\"broken\\} 1").is_none());
}

#[test]
fn doubled_backslashes_collapse_once() {
    let (_, v) = read_quoted_string("\"a\\\\b\\\\\\\\c\"", 0).unwrap();
    assert_eq!(v, String::from("a\\b\\\\c"));
}
