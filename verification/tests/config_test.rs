use std::time::Duration;

use rua_list::config::{listen_address, upstream_address, Args, Config};
use rua_list::error::CandyError;
use rua_list::latency::{format_latency, format_latency_micros};
use rua_list::whitelist::List;

fn empty_config() -> Config {
    Config {
        log_level: None,
        log_path: None,
        port: None,
        list: List { exact: vec![], wildcard: vec![] },
    }
}

#[test]
fn defaults_fill_missing_fields() {
    let mut c = empty_config();
    c.apply_defaults();
    assert_eq!(c.port, Some(3000));
    assert_eq!(c.log_level.as_deref(), Some("info"));
    assert_eq!(c.log_path.as_deref(), Some("/tmp/rua-list/log"));
    assert_eq!(c.listen_port(), 3000);
}

#[test]
fn defaults_keep_given_fields_and_settle() {
    let mut c = empty_config();
    c.port = Some(8080);
    c.log_level = Some("debug".to_string());
    c.apply_defaults();
    assert_eq!(c.port, Some(8080));
    assert_eq!(c.log_level.as_deref(), Some("debug"));
    c.apply_defaults();
    assert_eq!(c.port, Some(8080));
    assert_eq!(c.log_level.as_deref(), Some("debug"));
    assert_eq!(c.log_path.as_deref(), Some("/tmp/rua-list/log"));
}

#[test]
fn port_falls_back_to_3000() {
    let c = empty_config();
    assert_eq!(c.listen_port(), 3000);
}

#[test]
fn config_path_default() {
    assert_eq!(Args { config: None }.config_path(), "./config.json");
    assert_eq!(Args { config: Some("/etc/x.json".to_string()) }.config_path(), "/etc/x.json");
}

#[test]
fn addresses() {
    assert_eq!(listen_address(3000), "0.0.0.0:3000");
    assert_eq!(listen_address(0), "0.0.0.0:0");
    assert_eq!(upstream_address(3000), "127.0.0.1:3001");
    assert_eq!(upstream_address(9), "127.0.0.1:10");
}

#[test]
fn latency_text() {
    assert_eq!(format_latency(Duration::from_micros(850), "200 OK"), "200 OK 850\u{3bc}s");
    assert_eq!(format_latency(Duration::from_micros(999), "200 OK"), "200 OK 999\u{3bc}s");
    assert_eq!(format_latency(Duration::from_micros(1000), "200 OK"), "200 OK 1ms");
    assert_eq!(format_latency(Duration::from_nanos(12_345_678), "404 Not Found"), "404 Not Found 12ms");
    assert_eq!(format_latency(Duration::from_secs(3), "x"), "x 3000ms");
    assert_eq!(format_latency_micros(0, "s"), "s 0\u{3bc}s");
    assert_eq!(format_latency_micros(u128::MAX, "s"), format!("s {}ms", u128::MAX / 1000));
}

#[test]
fn error_messages() {
    assert_eq!(CandyError::Parse("x".to_string()).message(), "can not parse target");
    assert_eq!(CandyError::NotFound.message(), "page not found");
    assert_eq!(
        CandyError::UnknownFileType { file: "a\"b.txt".to_string() }.message(),
        "unknown file type, found file \"a\\\"b.txt\""
    );
    assert_eq!(CandyError::Unknown.message(), "unknown data store error");
}
