use std::sync::Arc;

use coveapi::config::{CoveAPIConfig, MergeObstacle, MergeScope, OpenapiSource, Runtime};
use coveapi::models::{EndpointConfiguration, Method, OpenapiPath};
use coveapi::parser::nginx_parser::{endpoint_of_captures, find_runtime_by_port};
use coveapi::parser::{parse_nginx_line, LinePattern};
use coveapi::utils::{sort_by_runtime, Error};

fn runtime(port: u16) -> Arc<Runtime> {
    Arc::from(Runtime {
        port,
        openapi_source: OpenapiSource::Path("./dump".to_string()),
        app_base_url: "http://example.con/".to_string(),
    })
}

fn generate_runtimes() -> Vec<Arc<Runtime>> {
    vec![runtime(13750), runtime(8080)]
}

#[test]
fn parses_correct_status() {
    assert_eq!(
        parse_nginx_line(
            &generate_runtimes(),
            "[11/Jul/2023:08:50:03 +0000] \"GET /weather HTTP/1.1\" 200 8080"
        )
        .unwrap()
        .status_code,
        200
    );
    assert_eq!(
        parse_nginx_line(
            &generate_runtimes(),
            "[11/Jul/2023:08:52:45 +0000] \"GET /user HTTP/1.1\" 404 8080"
        )
        .unwrap()
        .status_code,
        404
    );
}

#[test]
fn nginx_parser_parses_correct_method() {
    assert_eq!(
        parse_nginx_line(
            &generate_runtimes(),
            "[11/Jul/2023:08:50:03 +0000] \"GET /weather HTTP/1.1\" 200 8080"
        )
        .unwrap()
        .method,
        Method::GET
    );
    assert_eq!(
        parse_nginx_line(
            &generate_runtimes(),
            "[11/Jul/2023:08:50:03 +0000] \"POST /weather HTTP/1.1\" 200 8080"
        )
        .unwrap()
        .method,
        Method::POST
    );
}

#[test]
fn nginx_parser_parses_correct_path() {
    assert_eq!(
        parse_nginx_line(
            &generate_runtimes(),
            "[11/Jul/2023:08:50:03 +0000] \"GET /weather HTTP/1.1\" 200 8080"
        )
        .unwrap()
        .path,
        OpenapiPath::from_str("/weather").unwrap(),
    );
    assert_eq!(
        parse_nginx_line(
            &generate_runtimes(),
            "[11/Jul/2023:08:52:45 +0000] \"GET /user HTTP/1.1\" 404 8080"
        )
        .unwrap()
        .path,
        OpenapiPath::from_str("/user").unwrap(),
    );
    assert_eq!(
        parse_nginx_line(
            &generate_runtimes(),
            "[11/Jul/2023:08:52:45 +0000] \"GET / HTTP/1.1\" 404 8080"
        )
        .unwrap()
        .path,
        OpenapiPath::from_str("/").unwrap(),
    );
}

#[test]
fn parses_correct_port() {
    assert_eq!(
        parse_nginx_line(
            &generate_runtimes(),
            "[11/Jul/2023:08:50:03 +0000] \"GET /weather HTTP/1.1\" 200 8080"
        )
        .unwrap()
        .runtime
        .port,
        8080
    );
    assert_eq!(
        parse_nginx_line(
            &generate_runtimes(),
            "[11/Jul/2023:08:50:03 +0000] \"POST /weather HTTP/1.1\" 200 13750"
        )
        .unwrap()
        .runtime
        .port,
        13750
    );
}

#[test]
fn finds_runtime_by_port() {
    let runtimes = vec![runtime(8080), runtime(7890), runtime(443)];
    assert_eq!(find_runtime_by_port(&runtimes, 7890).unwrap(), runtimes[1]);
    assert_eq!(find_runtime_by_port(&runtimes, 443).unwrap(), runtimes[2]);
}

#[test]
fn throws_error_if_port_is_not_from_runtime() {
    let runtimes = vec![];
    assert!(find_runtime_by_port(&runtimes, 7890).is_err());
}

fn line_error(line: &str) -> Error {
    parse_nginx_line(&generate_runtimes(), line).unwrap_err()
}

#[test]
fn lines_are_refused_for_their_faults() {
    assert_eq!(line_error(""), Error::InvalidParseSyntax);
    assert_eq!(line_error("GET /weather HTTP/1.1"), Error::InvalidParseSyntax);
    assert_eq!(
        line_error(" [11/Jul/2023:08:50:03 +0000] \"GET /weather HTTP/1.1\" 200 8080"),
        Error::InvalidParseSyntax
    );
    assert_eq!(
        line_error("[11/Jul/2023:08:50:03 +0000] \"GET weather HTTP/1.1\" 200 8080"),
        Error::InvalidParseSyntax
    );
    assert_eq!(
        line_error("[11/Jul/2023:08:50:03 +0000] \"OPTIONS /weather HTTP/1.1\" 200 8080"),
        Error::InvalidParseSyntax
    );
    assert_eq!(
        line_error("[11/Jul/2023:08:50:03 +0000] \"GETS /weather HTTP/1.1\" 200 8080"),
        Error::UnknownInternalError("invalid method nginx GETS".to_string())
    );
    assert_eq!(
        line_error("[11/Jul/2023:08:50:03 +0000] \"GET /weather HTTP/1.1\" 200 99999"),
        Error::UnknownInternalError("invalid port nginx logs".to_string())
    );
    assert_eq!(
        line_error("[11/Jul/2023:08:50:03 +0000] \"GET /weather HTTP/1.1\" 200 81"),
        Error::UnknownInternalError("unknown port in nginx logs".to_string())
    );
}

#[test]
fn lines_are_read_up_to_what_the_pattern_takes() {
    let endpoint = parse_nginx_line(
        &generate_runtimes(),
        "[a] [b] \"head /x/y?z=1 HTTP/2.0\" 301 137501 and more",
    )
    .unwrap();
    assert_eq!(endpoint.method, Method::HEAD);
    assert_eq!(endpoint.path.original_source(), "/x/y?z=1");
    assert_eq!(endpoint.status_code, 301);
    assert_eq!(endpoint.runtime.port, 13750);
    assert!(!endpoint.is_generated);
}

fn groups(texts: &[Option<&str>]) -> Option<Option<Vec<Option<String>>>> {
    Some(Some(texts.iter().map(|text| text.map(|text| text.to_string())).collect()))
}

#[test]
fn endpoint_is_built_from_the_groups_of_a_line() {
    let runtimes = generate_runtimes();
    let whole = Some("whole");
    let endpoint = endpoint_of_captures(
        &runtimes,
        &groups(&[whole, Some("[t]"), Some("put"), Some("/a"), Some("201"), Some("8080")]),
    )
    .unwrap();
    assert!(endpoint == EndpointConfiguration::new(Method::PUT, "/a", 201, runtimes[1].clone(), false).unwrap());

    let refused = |captured: Option<Option<Vec<Option<String>>>>| endpoint_of_captures(&runtimes, &captured).unwrap_err();
    assert_eq!(refused(None), Error::InvalidParseSyntax);
    assert_eq!(refused(Some(None)), Error::InvalidParseSyntax);
    assert_eq!(refused(groups(&[whole])), Error::InvalidParseSyntax);
    assert_eq!(
        refused(groups(&[whole, None, None, None, Some("x"), None])),
        Error::InvalidParseStatusCode("x".to_string())
    );
    assert_eq!(
        refused(groups(&[whole, None, None, None, Some("200"), None])),
        Error::UnknownInternalError("no method nginx logs".to_string())
    );
    assert_eq!(
        refused(groups(&[whole, None, Some("get"), None, Some("200"), None])),
        Error::UnknownInternalError("invalid path nginx logs".to_string())
    );
    assert_eq!(
        refused(groups(&[whole, None, Some("get"), Some("/"), Some("200")])),
        Error::UnknownInternalError("no port number nginx logs".to_string())
    );
    assert_eq!(
        refused(groups(&[whole, None, Some("get"), Some("/"), Some("200"), Some("p")])),
        Error::UnknownInternalError("invalid port nginx logs".to_string())
    );
}

#[test]
fn sorts_into_runtime_correctly() {
    let runtime_a = runtime(400);
    let runtime_b = runtime(200);

    let endpoint_configs = vec![
        EndpointConfiguration::new(Method::GET, "/", 200, runtime_a.clone(), false).unwrap(),
        EndpointConfiguration::new(Method::GET, "/", 502, runtime_a.clone(), false).unwrap(),
        EndpointConfiguration::new(Method::GET, "/", 404, runtime_b.clone(), false).unwrap(),
    ];

    let sorted = sort_by_runtime(&endpoint_configs);
    let get = |runtime: &Arc<Runtime>| &sorted.iter().find(|group| group.0 == *runtime).unwrap().1;

    assert_eq!(get(&runtime_a).len(), 2);
    assert!(get(&runtime_a).iter().any(|x| x.status_code == 200));
    assert!(get(&runtime_a).iter().any(|x| x.status_code == 502));

    assert_eq!(get(&runtime_b).len(), 1);
    assert!(get(&runtime_b).iter().any(|x| x.status_code == 404));
}

#[test]
fn runtimes_are_gathered_in_the_order_of_their_first_endpoint() {
    let endpoint_configs = vec![
        EndpointConfiguration::new(Method::GET, "/a", 200, runtime(2), false).unwrap(),
        EndpointConfiguration::new(Method::GET, "/b", 200, runtime(1), false).unwrap(),
        EndpointConfiguration::new(Method::GET, "/c", 200, runtime(2), false).unwrap(),
        EndpointConfiguration::new(Method::GET, "/d", 200, runtime(3), false).unwrap(),
        EndpointConfiguration::new(Method::GET, "/e", 200, runtime(1), false).unwrap(),
    ];
    let sorted = sort_by_runtime(&endpoint_configs);
    let shape: Vec<(u16, Vec<&str>)> = sorted
        .iter()
        .map(|group| (group.0.port, group.1.iter().map(|x| x.path.original_source()).collect()))
        .collect();
    assert_eq!(
        shape,
        vec![(2, vec!["/a", "/c"]), (1, vec!["/b", "/e"]), (3, vec!["/d"])]
    );
    assert!(sort_by_runtime(&Vec::new()).is_empty());
}

fn config(is_merge: bool, only_account_for_merge: bool, source: OpenapiSource) -> CoveAPIConfig {
    CoveAPIConfig {
        debug: false,
        security_accounts_for_forbidden: false,
        security_accounts_for_unautorized: false,
        runtimes: vec![Arc::from(Runtime { openapi_source: source, app_base_url: "http://a/".to_string(), port: 1 })],
        is_merge,
        only_account_for_merge,
        groupings: Vec::new(),
    }
}

#[test]
fn merge_scope_follows_the_configuration() {
    let file = || OpenapiSource::Path("a.json".to_string());
    let url = || OpenapiSource::Url("http://a/a.json".to_string());
    assert_eq!(config(false, false, file()).merge_scope(), Ok(MergeScope::Everything));
    assert_eq!(config(true, false, file()).merge_scope(), Ok(MergeScope::Everything));
    assert_eq!(config(true, false, url()).merge_scope(), Ok(MergeScope::Everything));
    assert_eq!(config(false, true, file()).merge_scope(), Ok(MergeScope::Everything));
    assert_eq!(config(true, true, file()).merge_scope(), Ok(MergeScope::SinceBaseline));
    assert_eq!(config(true, true, url()).merge_scope(), Err(MergeObstacle::DynamicSource));
    assert_eq!(config(false, true, url()).merge_scope(), Err(MergeObstacle::NoMerge));
    assert!(MergeObstacle::NoMerge.as_str().starts_with("You need to have two commits"));
    assert!(MergeObstacle::DynamicSource.as_str().starts_with("Your configuration contains"));
}

#[test]
fn compiled_pattern_reads_many_lines() {
    let runtimes = generate_runtimes();
    let pattern = LinePattern::nginx().unwrap();
    for k in 0..20000 {
        let status = 100 + k % 500;
        let line = format!("[11/Jul/2023:08:50:03 +0000] \"GET /weather/{} HTTP/1.1\" {} 8080", k, status);
        let endpoint = pattern.parse_line(&runtimes, &line).unwrap();
        assert_eq!(endpoint.status_code, status);
        assert_eq!(endpoint.path.original_source(), format!("/weather/{}", k));
    }
    assert_eq!(pattern.parse_line(&runtimes, "nothing").unwrap_err(), Error::InvalidParseSyntax);
    let long = format!("[{}] \"GET /{} HTTP/1.1\" 200 8080", "t".repeat(100000), "p".repeat(100000));
    let endpoint = pattern.parse_line(&runtimes, &long).unwrap();
    assert_eq!(endpoint.path.original_source().len(), 100001);
    assert_eq!(line_error(&"[".repeat(100000)), Error::InvalidParseSyntax);
}
