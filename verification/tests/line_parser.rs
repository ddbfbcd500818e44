use prometheus_wire::read_comment_line;
use prometheus_wire::read_label;
use prometheus_wire::read_quoted_string;
use prometheus_wire::read_sample_line;
use prometheus_wire::read_timestamp;
use prometheus_wire::read_value;
use prometheus_wire::read_variable_name;
use prometheus_wire::Comment;
use prometheus_wire::CommentType;
use prometheus_wire::LabelList;
use prometheus_wire::MetricValue;

fn rest(s: &str, pos: usize) -> String {
    s.chars().skip(pos).collect()
}

fn val_f64(v: &MetricValue) -> f64 {
    match v {
        MetricValue::PosInf => f64::INFINITY,
        MetricValue::NegInf => f64::NEG_INFINITY,
        MetricValue::Num(raw) => raw.parse::<f64>().unwrap(),
    }
}

fn pairs(ps: &[(&str, &str)]) -> LabelList {
    let mut v: Vec<(String, String)> = Vec::new();
    for (k, val) in ps {
        v.push((String::from(*k), String::from(*val)));
    }
    LabelList::from_pairs(v)
}

#[test]
fn test_read_variable_name() {
    let (p, name) = read_variable_name("alfa_123", 0);
    assert_eq!((rest("alfa_123", p), name), (String::from(""), String::from("alfa_123")));
    let (p, name) = read_variable_name(" beta:456 ", 0);
    assert_eq!((rest(" beta:456 ", p), name), (String::from(" "), String::from("beta:456")));
    let (p, name) = read_variable_name(" gama.789{", 0);
    assert_eq!((rest(" gama.789{", p), name), (String::from("{"), String::from("gama.789")));
}

#[test]
fn test_read_quoted_string() {
    assert!(read_quoted_string("", 0).is_none());
    let (p, v) = read_quoted_string("\"\"", 0).unwrap();
    assert_eq!((rest("\"\"", p), v), (String::from(""), String::from("")));
    let (p, v) = read_quoted_string("\" alfa_123 \"", 0).unwrap();
    assert_eq!((rest("\" alfa_123 \"", p), v), (String::from(""), String::from(" alfa_123 ")));
    let (p, v) = read_quoted_string("\"new\\nline\"", 0).unwrap();
    assert_eq!((rest("\"new\\nline\"", p), v), (String::from(""), String::from("new\\nline")));
    let (p, v) = read_quoted_string("\" C:\\\\test\\\\ \"", 0).unwrap();
    assert_eq!(
        (rest("\" C:\\\\test\\\\ \"", p), v),
        (String::from(""), String::from(" C:\\test\\ "))
    );
    let (p, v) = read_quoted_string("\"beta:\\\"456\\\"\"", 0).unwrap();
    assert_eq!(
        (rest("\"beta:\\\"456\\\"\"", p), v),
        (String::from(""), String::from("beta:\\\"456\\\""))
    );
}

#[test]
fn test_read_label() {
    let (p, l) = read_label("", 0);
    assert_eq!((rest("", p), l), (String::from(""), LabelList::new()));
    let (p, l) = read_label("{}", 0);
    assert_eq!((rest("{}", p), l), (String::from(""), LabelList::new()));
    let (p, l) = read_label(" ", 0);
    assert_eq!((rest(" ", p), l), (String::from(" "), LabelList::new()));
    let (p, l) = read_label(" {} ", 0);
    assert_eq!((rest(" {} ", p), l), (String::from(" "), LabelList::new()));

    let h1 = pairs(&[("alfa", "1")]);
    let (p, l) = read_label("{alfa=\"1\"}", 0);
    assert_eq!((rest("{alfa=\"1\"}", p), l), (String::from(""), h1.clone()));
    let (p, l) = read_label("{ alfa = \"1\" }", 0);
    assert_eq!((rest("{ alfa = \"1\" }", p), l), (String::from(""), h1.clone()));

    let h2 = pairs(&[("a_b:1", "test\\\"1\\\""), ("543_a.76", "C:\\test\\")]);

    let s = " { a_b:1 = \"test\\\"1\\\"\" , 543_a.76=\"C:\\\\test\\\\\"}";
    let (p, l) = read_label(s, 0);
    assert_eq!((rest(s, p), l), (String::from(""), h2.clone()));

    let s_no_spaces = s.replace(" ", "");
    let (p, l) = read_label(s_no_spaces.as_str(), 0);
    assert_eq!((rest(s_no_spaces.as_str(), p), l), (String::from(""), h2.clone()));
}

#[test]
fn test_read_value() {
    assert!(read_value("", 0).is_none());
    assert!(read_value(" ", 0).is_none());
    let (p, v) = read_value(" +154.0", 0).unwrap();
    assert_eq!((rest(" +154.0", p), val_f64(&v)), (String::from(""), 154.0));
    let (p, v) = read_value("-1500.0 ", 0).unwrap();
    assert_eq!((rest("-1500.0 ", p), val_f64(&v)), (String::from(" "), -1500.0));
    let (p, v) = read_value("1.5e-03 5", 0).unwrap();
    assert_eq!((rest("1.5e-03 5", p), val_f64(&v)), (String::from(" 5"), 0.0015));
    let (p, v) = read_value("+Inf ", 0).unwrap();
    assert_eq!((rest("+Inf ", p), val_f64(&v)), (String::from(" "), f64::INFINITY));
    let (p, v) = read_value("-1.7560473e+07", 0).unwrap();
    assert_eq!((rest("-1.7560473e+07", p), val_f64(&v)), (String::from(""), -17560473.0));
    let (p, v) = read_value(" -Inf  1234", 0).unwrap();
    assert_eq!((rest(" -Inf  1234", p), val_f64(&v)), (String::from("  1234"), f64::NEG_INFINITY));
}

#[test]
fn test_read_timestamp() {
    let (p, t) = read_timestamp("", 0);
    assert_eq!((rest("", p), t), (String::from(""), None));
    let (p, t) = read_timestamp(" 1", 0);
    assert_eq!((rest(" 1", p), t), (String::from(""), Some(1)));
    let (p, t) = read_timestamp("    ", 0);
    assert_eq!((rest("    ", p), t), (String::from("    "), None));
    let (p, t) = read_timestamp("123456789", 0);
    assert_eq!((rest("123456789", p), t), (String::from(""), Some(123456789)));
    let (p, t) = read_timestamp("-987654321 5", 0);
    assert_eq!((rest("-987654321 5", p), t), (String::from(" 5"), Some(-987654321)));
}

#[test]
fn test_read_comment_line() {
    assert!(read_comment_line("# alfa").is_none());
    let (p, c) = read_comment_line("# HELP").unwrap();
    assert_eq!(
        (rest("# HELP", p), c),
        (String::from(""), Comment::new(String::from(""), CommentType::HELP, String::from("")))
    );
    let s = "# HELP node_cpu_seconds_total Seconds the CPUs spent in each mode.";
    let (p, c) = read_comment_line(s).unwrap();
    assert_eq!(
        (rest(s, p), c),
        (
            String::from(""),
            Comment::new(
                String::from("node_cpu_seconds_total"),
                CommentType::HELP,
                String::from("Seconds the CPUs spent in each mode.")
            )
        )
    );
    let s = "#    TYPE     node_cpu_seconds_total counter";
    let (p, c) = read_comment_line(s).unwrap();
    assert_eq!(
        (rest(s, p), c),
        (
            String::from(""),
            Comment::new(
                String::from("node_cpu_seconds_total"),
                CommentType::TYPE,
                String::from("counter")
            )
        )
    );
    let s = "#    HELP     alfa";
    let (p, c) = read_comment_line(s).unwrap();
    assert_eq!(
        (rest(s, p), c),
        (String::from(""), Comment::new(String::from("alfa"), CommentType::HELP, String::from("")))
    );
}

#[test]
fn test_read_metric_line() {
    let s = "something_weird{problem=\"division by zero\"} +Inf -3982045";
    let l = pairs(&[("problem", "division by zero")]);
    let (p, sd) = read_sample_line(s).unwrap();
    assert_eq!(rest(s, p), String::from(""));
    assert_eq!(sd.name, String::from("something_weird"));
    assert_eq!(sd.labels, l);
    assert_eq!(sd.value, MetricValue::PosInf);
    assert_eq!(val_f64(&sd.value), f64::INFINITY);
    assert_eq!(sd.timestamp, Some(-3982045));

    let s = "msdos_file_access_time_seconds{path=\"C:\\\\DIR\\\\FILE.TXT\",error=\"Cannot find file:\\n\\\"FILE.TXT\\\"\"} 1.458255915e9";
    let l = pairs(&[("path", "C:\\DIR\\FILE.TXT"), ("error", "Cannot find file:\\n\\\"FILE.TXT\\\"")]);
    let (p, sd) = read_sample_line(s).unwrap();
    assert_eq!(rest(s, p), String::from(""));
    assert_eq!(sd.name, String::from("msdos_file_access_time_seconds"));
    assert_eq!(sd.labels, l);
    assert_eq!(val_f64(&sd.value), 1458255915.0);
    assert_eq!(sd.timestamp, None);
}
