use rua_list::whitelist::{
    not_found_reply, refused_reply, sms_reply, sms_request_url, Admission, List,
};

fn list(exact: &[&str], wildcard: &[&str]) -> List {
    List {
        exact: exact.iter().map(|s| s.to_string()).collect(),
        wildcard: wildcard.iter().map(|s| s.to_string()).collect(),
    }
}

#[test]
fn exact_number_is_admitted_first() {
    let l = list(&["13800000000"], &["138*"]);
    assert_eq!(l.check_mobile(&"13800000000".to_string()), Admission::Exact);
}

#[test]
fn wildcard_number_is_admitted() {
    let l = list(&["1"], &["138*", "15?"]);
    assert_eq!(l.check_mobile(&"13812345678".to_string()), Admission::Wildcard);
    assert_eq!(l.check_mobile(&"150".to_string()), Admission::Wildcard);
    assert_eq!(l.check_mobile(&"1500".to_string()), Admission::Refused);
    assert_eq!(l.check_mobile(&"139".to_string()), Admission::Refused);
}

#[test]
fn empty_lists_refuse() {
    let l = list(&[], &[]);
    assert_eq!(l.check_mobile(&"1".to_string()), Admission::Refused);
    assert_eq!(l.check_mobile(&"".to_string()), Admission::Refused);
}

#[test]
fn star_admits_everything() {
    let l = list(&[], &["*"]);
    assert_eq!(l.check_mobile(&"".to_string()), Admission::Wildcard);
    assert_eq!(l.check_mobile(&"any".to_string()), Admission::Wildcard);
}

#[test]
fn plain_pattern_matches_only_itself() {
    let l = list(&[], &["123"]);
    assert_eq!(l.check_mobile(&"123".to_string()), Admission::Wildcard);
    assert_eq!(l.check_mobile(&"1234".to_string()), Admission::Refused);
}

#[test]
fn adding_entries_never_refuses_an_admitted_number() {
    let mut l = list(&[], &["13?"]);
    assert_eq!(l.check_mobile(&"131".to_string()), Admission::Wildcard);
    l.exact.push("999".to_string());
    l.wildcard.push("2*".to_string());
    assert_eq!(l.check_mobile(&"131".to_string()), Admission::Wildcard);
}

#[test]
fn replies() {
    let r = refused_reply();
    assert_eq!((r.status, r.body.as_str()), (403, "Phone number is not in whitelist"));
    let r = sms_reply::<String>(Ok("<xml/>".to_string()));
    assert_eq!((r.status, r.body.as_str()), (200, "<xml/>"));
    let r = sms_reply::<String>(Err("boom".to_string()));
    assert_eq!((r.status, r.body.as_str()), (500, "Failed to request sms.aspx {err}"));
    let r = not_found_reply();
    assert_eq!((r.status, r.body.as_str()), (404, "Not found"));
}

#[test]
fn url_is_base_then_uri() {
    assert_eq!(sms_request_url("http://sms.example", "/sms.aspx?a=1"), "http://sms.example/sms.aspx?a=1");
}
