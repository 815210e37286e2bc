use coveapi::parser::common::format_basepath;

#[test]
fn coverts_slash_to_empty_string() {
    assert_eq!(format_basepath("/"), "");
}

#[test]
fn removes_trailing_slash() {
    assert_eq!(format_basepath("/hello/"), "/hello");
}

#[test]
fn ignores_emty_string() {
    assert_eq!(format_basepath(""), "");
}

#[test]
fn keeps_path_without_trailing_slash() {
    assert_eq!(format_basepath("/hello"), "/hello");
    assert_eq!(format_basepath("/hello//"), "/hello/");
    assert_eq!(format_basepath("/caf\u{e9}/"), "/caf\u{e9}");
}
