use juno_broker::json::{Json, JsonNumber};
use juno_broker::logger::{self, LogFilter, LogLevel};
use juno_broker::protocol::{decimal_string, is_function_name};
use juno_broker::transport::{connection_type_for, listen_address, lock_file_path, ConnectionType};
use juno_broker::version::{Requirement, SemanticVersion};

#[test]
fn qualified_function_names() {
    assert_eq!(is_function_name("mod-a.fn_b"), Some(("mod-a".to_string(), "fn_b".to_string())));
    assert_eq!(is_function_name("a."), Some(("a".to_string(), "".to_string())));
    assert_eq!(is_function_name("ab"), None);
    assert_eq!(is_function_name("a.b.c"), None);
    assert_eq!(is_function_name("a.b-c"), None);
    assert_eq!(is_function_name("a b.c"), None);
    assert_eq!(is_function_name("\u{e9}.c"), None);
}

#[test]
fn decimal_text() {
    assert_eq!(decimal_string(0), "0");
    assert_eq!(decimal_string(1234567), "1234567");
    assert_eq!(decimal_string(u128::MAX), u128::MAX.to_string());
}

#[test]
fn versions_and_requirements() {
    let v = SemanticVersion::parse("1.2.3").unwrap();
    assert_eq!(v.as_str(), "1.2.3");
    assert!(SemanticVersion::parse("1.0").is_none());
    assert!(SemanticVersion::parse("").is_none());
    let q = Requirement::parse("^1.0.0").unwrap();
    assert_eq!(q.as_str(), "^1.0.0");
    assert!(q.matches(&v));
    assert!(!q.matches(&SemanticVersion::parse("0.9.0").unwrap()));
    assert!(!q.matches(&SemanticVersion::parse("2.0.0").unwrap()));
    assert!(Requirement::parse("not a req").is_none());
}

#[test]
fn log_filter() {
    let mut filter = LogFilter::new(LogLevel::Warn);
    assert_eq!(logger::info(&filter, "x"), None);
    assert_eq!(logger::warn(&filter, "careful"), Some("[WARN]: careful".to_string()));
    assert_eq!(logger::error(&filter, "bad"), Some("[ERROR]: bad".to_string()));
    logger::set_verbosity(&mut filter, LogLevel::Verbose);
    assert_eq!(logger::verbose(&filter, "v"), Some("[VERBOSE]: v".to_string()));
    assert_eq!(logger::debug(&filter, "d"), Some("[DEBUG]: d".to_string()));
    assert_eq!(LogLevel::Info.to_string(), "INFO");
}

#[test]
fn transport_names() {
    assert_eq!(lock_file_path("/tmp/juno.sock"), "/tmp/juno.sock.lock");
    assert_eq!(listen_address("127.0.0.1", "2203"), "127.0.0.1:2203");
    assert_eq!(connection_type_for(true), ConnectionType::InetSocket);
    assert_eq!(connection_type_for(false), ConnectionType::UnixSocket);
}

#[test]
fn json_members() {
    let j = Json::empty_object().with_field("a", Json::uint(1)).with_field("b", Json::string("x"));
    let j = j.with_field("a", Json::uint(2));
    assert_eq!(j.get_u64("a"), Some(2));
    assert_eq!(j.get_str("b"), Some("x"));
    assert_eq!(j.get_u64("b"), None);
    assert_eq!(j.get("c"), None);
    assert_eq!(j.copy(), j);
    let f = Json::Number(JsonNumber::Float("1.5".to_string()));
    assert_eq!(f.copy(), f);
    assert!(!Json::Null.is_object());
}
