use resserve::getopt::parse_args;
use resserve::log::{LogLevel, Timer};

fn args(a: &[&str]) -> Vec<String> {
    a.iter().map(|s| s.to_string()).collect()
}

#[test]
fn flags_take_following_values() {
    let m = parse_args(&args(&["-p", "8080", "-f", "/srv", "-v"])).unwrap();
    assert_eq!(m.get("p"), Some(Some("8080")));
    assert_eq!(m.get("f"), Some(Some("/srv")));
    assert_eq!(m.get("v"), Some(None));
    assert_eq!(m.get("c"), None);
}

#[test]
fn consecutive_flags_have_no_value() {
    let m = parse_args(&args(&["-a", "-b", "x"])).unwrap();
    assert_eq!(m.get("a"), Some(None));
    assert_eq!(m.get("b"), Some(Some("x")));
}

#[test]
fn value_without_flag_is_rejected() {
    let e = parse_args(&args(&["-p", "1", "stray"])).err().unwrap();
    assert_eq!(e.invalid_arg(), "stray");
    let e = parse_args(&args(&["x"])).err().unwrap();
    assert_eq!(e.invalid_arg(), "x");
}

#[test]
fn later_flag_overrides_earlier() {
    let m = parse_args(&args(&["-p", "1", "-p", "2"])).unwrap();
    assert_eq!(m.get("p"), Some(Some("2")));
}

#[test]
fn no_arguments_gives_no_flags() {
    let m = parse_args(&Vec::new()).unwrap();
    assert_eq!(m.get("p"), None);
}

#[test]
fn lone_dash_is_empty_flag() {
    let m = parse_args(&args(&["-", "v"])).unwrap();
    assert_eq!(m.get(""), Some(Some("v")));
}

#[test]
fn level_names_in_any_case() {
    assert_eq!(LogLevel::from_name("TRACE"), LogLevel::Trace);
    assert_eq!(LogLevel::from_name("Debug"), LogLevel::Debug);
    assert_eq!(LogLevel::from_name("info"), LogLevel::Info);
    assert_eq!(LogLevel::from_name("wArN"), LogLevel::Warn);
    assert_eq!(LogLevel::from_name("ERROR"), LogLevel::Error);
    assert_eq!(LogLevel::from_name("verbose"), LogLevel::Info);
    assert_eq!(LogLevel::from_lower("ERROR"), LogLevel::Info);
}

#[test]
fn level_order_and_names() {
    assert!(LogLevel::Trace < LogLevel::Debug);
    assert!(LogLevel::Info <= LogLevel::Warn);
    assert!(LogLevel::Warn < LogLevel::Error);
    assert_eq!(LogLevel::default(), LogLevel::Info);
    assert_eq!(LogLevel::Warn.name(), "Warn");
    assert_eq!(LogLevel::Trace.name(), "Trace");
}

#[test]
fn timer_keeps_its_labels() {
    let t = Timer::new("Cache", "open");
    assert_eq!(t.log_context(), "Cache");
    assert_eq!(t.timer_context(), "open");
    assert!(t.started().elapsed().as_secs() < 60);
}
