use std::sync::Arc;

use coveapi::config::{OpenapiSource, Runtime};
use coveapi::evaluator::compare::{endpoint_incompases_any, get_endpoints_for_diff, has_gateway_issues};
use coveapi::evaluator::diff::compare_endpoints;
use coveapi::evaluator::{evaluate, Evaluation};
use coveapi::models::{EndpointConfiguration, Grouping, Method, OpenapiPath};

fn create_mock_runtime() -> Runtime {
    Runtime {
        openapi_source: OpenapiSource::Url("https://example.com/".to_string()),
        app_base_url: "https://example.com/".to_string(),
        port: 8080,
    }
}

fn endpoint(method: Method, path: &str, status: u16) -> EndpointConfiguration {
    EndpointConfiguration::new(method, path, status, Arc::new(create_mock_runtime()), false).unwrap()
}

fn create_endpoint_a() -> EndpointConfiguration {
    endpoint(Method::GET, "/a", 200)
}

fn create_endpoint_b() -> EndpointConfiguration {
    endpoint(Method::GET, "/b", 200)
}

fn create_endpoint_c() -> EndpointConfiguration {
    endpoint(Method::POST, "/c", 200)
}

fn test_coverage(evaluation: &Evaluation) -> f32 {
    if evaluation.relevant_endpoints == 0 {
        1.0
    } else {
        (evaluation.relevant_endpoints as f32 - evaluation.endpoints_not_covered.len() as f32)
            / evaluation.relevant_endpoints as f32
    }
}

fn assert_close(got: f32, expected: f32) {
    assert!((got - expected).abs() <= 0.001, "{} is not {}", got, expected);
}

#[test]
fn evaluate_covers_simplest_test_coverage_case() {
    let openapi_endpoints = vec![create_endpoint_a(), create_endpoint_b(), create_endpoint_c()];
    let nginx_endpoints = vec![create_endpoint_a(), create_endpoint_b()];

    let evaluation = evaluate(&openapi_endpoints, &None, &nginx_endpoints, &Vec::new());

    assert_close(test_coverage(&evaluation), 2.0 / 3.0);
    assert_eq!(evaluation.relevant_endpoints, 3);
    assert_eq!(evaluation.covered_endpoints, 2);
    assert_eq!(evaluation.endpoints_not_covered.len(), 1);
    assert!(*evaluation.endpoints_not_covered[0] == create_endpoint_c());
}

#[test]
fn evaluate_gives_full_coverage_when_no_wanted_and_no_provided() {
    let openapi_endpoints = vec![];
    let nginx_endpoints = vec![];

    let evaluation = evaluate(&openapi_endpoints, &None, &nginx_endpoints, &Vec::new());
    assert_close(test_coverage(&evaluation), 1.0);
    assert_eq!(evaluation.relevant_endpoints, 0);
    assert_eq!(evaluation.covered_endpoints, 0);
    assert!(evaluation.endpoints_not_covered.is_empty());
    assert!(!evaluation.has_gateway_issues);
}

#[test]
fn evaluate_gives_zero_if_no_nginx_endpoint() {
    let openapi_endpoints = vec![create_endpoint_a()];
    let nginx_endpoints = vec![];

    let evaluation = evaluate(&openapi_endpoints, &None, &nginx_endpoints, &Vec::new());
    assert_close(test_coverage(&evaluation), 0.0);
    assert_eq!(evaluation.covered_endpoints, 0);
    assert_eq!(evaluation.endpoints_not_covered.len(), 1);
}

#[test]
fn evaluate_groups_two_endpoints() {
    let openapi_endpoints = vec![create_endpoint_a(), create_endpoint_b(), create_endpoint_c()];
    let nginx_endpoints = vec![create_endpoint_a(), create_endpoint_b()];
    let grouping = Grouping::new(
        vec![Method::GET, Method::POST],
        vec![200],
        OpenapiPath::from_str("/{foo}").unwrap(),
        false,
    );
    let groupings = vec![grouping];

    let evaluation = evaluate(&openapi_endpoints, &None, &nginx_endpoints, &groupings);

    assert_close(test_coverage(&evaluation), 1.0);
}

#[test]
fn internal_incompases_all_check_matches_base_case() {
    let endpoint = create_endpoint_a();
    let possibly_incompased_endpoints = vec![create_endpoint_a()];
    assert!(endpoint_incompases_any(&endpoint, &possibly_incompased_endpoints))
}

#[test]
fn internal_incompases_all_check_functions_for_sized_arrays() {
    let endpoint = create_endpoint_c();
    let possibly_incompased_endpoints = vec![create_endpoint_a(), create_endpoint_b()];
    assert!(!endpoint_incompases_any(&endpoint, &possibly_incompased_endpoints))
}

#[test]
fn internal_incompases_all_check_returns_false_for_empty_possibilities() {
    let endpoint = create_endpoint_a();
    let possibly_incompased_endpoints = vec![];
    assert!(!endpoint_incompases_any(&endpoint, &possibly_incompased_endpoints))
}

#[test]
fn correctly_asserts_gateway_issues() {
    let nginx_endpoints = vec![endpoint(Method::GET, "/", 502)];

    assert!(has_gateway_issues(&nginx_endpoints));
}

fn traffic(bad: usize, total: usize) -> Vec<EndpointConfiguration> {
    let mut observed = Vec::new();
    for k in 0..total {
        observed.push(endpoint(Method::GET, "/", if k < bad { 502 } else { 200 }));
    }
    observed
}

#[test]
fn gateway_issues_are_flagged_above_forty_or_above_a_quarter() {
    assert!(has_gateway_issues(&traffic(41, 100)));
    assert!(!has_gateway_issues(&traffic(39, 1000)));
    assert!(!has_gateway_issues(&traffic(40, 1000)));
    assert!(has_gateway_issues(&traffic(41, 1000)));
    assert!(!has_gateway_issues(&traffic(25, 100)));
    assert!(has_gateway_issues(&traffic(26, 100)));
    assert!(!has_gateway_issues(&traffic(0, 0)));
    assert!(!has_gateway_issues(&traffic(0, 3)));
    assert!(has_gateway_issues(&traffic(1, 3)));
    assert!(!has_gateway_issues(&traffic(1, 7)));
    assert!(has_gateway_issues(&traffic(2, 7)));
    assert!(!has_gateway_issues(&traffic(1, 4)));
}

#[test]
fn evaluate_reports_gateway_issues() {
    let declared = vec![create_endpoint_a()];
    assert!(evaluate(&declared, &None, &traffic(41, 100), &Vec::new()).has_gateway_issues);
    assert!(!evaluate(&declared, &None, &traffic(39, 1000), &Vec::new()).has_gateway_issues);
}

#[test]
fn grouping_with_one_observed_member_covers_both() {
    let openapi_endpoints = vec![create_endpoint_a(), create_endpoint_b()];
    let grouping = Grouping::new(vec![Method::GET], vec![200], OpenapiPath::from_str("/{foo}").unwrap(), false);

    let first_observed = vec![create_endpoint_a()];
    let evaluation = evaluate(&openapi_endpoints, &None, &first_observed, &vec![grouping]);
    assert_eq!(evaluation.covered_endpoints, 2);
    assert!(evaluation.endpoints_not_covered.is_empty());

    let grouping = Grouping::new(vec![Method::GET], vec![200], OpenapiPath::from_str("/{foo}").unwrap(), false);
    let second_observed = vec![create_endpoint_b()];
    let evaluation = evaluate(&openapi_endpoints, &None, &second_observed, &vec![grouping]);
    assert_eq!(evaluation.covered_endpoints, 2);
    assert!(evaluation.endpoints_not_covered.is_empty());
}

#[test]
fn grouping_without_observed_member_covers_none() {
    let openapi_endpoints = vec![create_endpoint_a(), create_endpoint_b(), create_endpoint_c()];
    let grouping = Grouping::new(vec![Method::GET], vec![200], OpenapiPath::from_str("/{foo}").unwrap(), false);
    let observed = vec![create_endpoint_c()];

    let evaluation = evaluate(&openapi_endpoints, &None, &observed, &vec![grouping]);
    assert_eq!(evaluation.relevant_endpoints, 3);
    assert_eq!(evaluation.covered_endpoints, 1);
    assert_eq!(evaluation.endpoints_not_covered.len(), 2);
    assert!(*evaluation.endpoints_not_covered[0] == create_endpoint_a());
    assert!(*evaluation.endpoints_not_covered[1] == create_endpoint_b());
}

#[test]
fn ignore_group_covers_its_members_without_traffic() {
    let openapi_endpoints = vec![create_endpoint_a(), create_endpoint_b(), create_endpoint_c()];
    let grouping = Grouping::new(vec![Method::GET], vec![200], OpenapiPath::from_str("/{foo}").unwrap(), true);

    let evaluation = evaluate(&openapi_endpoints, &None, &Vec::new(), &vec![grouping]);
    assert_eq!(evaluation.covered_endpoints, 2);
    assert_eq!(evaluation.endpoints_not_covered.len(), 1);
    assert!(*evaluation.endpoints_not_covered[0] == create_endpoint_c());
}

#[test]
fn endpoint_missed_by_two_groupings_is_reported_once() {
    let openapi_endpoints = vec![create_endpoint_a()];
    let first = Grouping::new(vec![Method::GET], vec![200], OpenapiPath::from_str("/{foo}").unwrap(), false);
    let second = Grouping::new(vec![Method::GET], vec![200, 404], OpenapiPath::from_str("/a").unwrap(), false);

    let evaluation = evaluate(&openapi_endpoints, &None, &Vec::new(), &vec![first, second]);
    assert_eq!(evaluation.relevant_endpoints, 1);
    assert_eq!(evaluation.covered_endpoints, 0);
    assert_eq!(evaluation.endpoints_not_covered.len(), 1);
}

#[test]
fn baseline_endpoints_are_not_evaluated() {
    let openapi_endpoints = vec![create_endpoint_a(), create_endpoint_b(), create_endpoint_c()];
    let baseline = Some(vec![create_endpoint_a(), create_endpoint_b()]);

    let evaluation = evaluate(&openapi_endpoints, &baseline, &Vec::new(), &Vec::new());
    assert_eq!(evaluation.relevant_endpoints, 1);
    assert_eq!(evaluation.covered_endpoints, 0);
    assert!(*evaluation.endpoints_not_covered[0] == create_endpoint_c());

    let evaluation = evaluate(&openapi_endpoints, &baseline, &vec![create_endpoint_c()], &Vec::new());
    assert_eq!(evaluation.relevant_endpoints, 1);
    assert_eq!(evaluation.covered_endpoints, 1);

    let everything = Some(vec![create_endpoint_c(), create_endpoint_b(), create_endpoint_a()]);
    let evaluation = evaluate(&openapi_endpoints, &everything, &Vec::new(), &Vec::new());
    assert_eq!(evaluation.relevant_endpoints, 0);
    assert_close(test_coverage(&evaluation), 1.0);
}

#[test]
fn repeated_declarations_are_evaluated_once() {
    let openapi_endpoints = vec![create_endpoint_a(), create_endpoint_b(), create_endpoint_a()];

    assert_eq!(get_endpoints_for_diff(&None, &openapi_endpoints), vec![0, 1]);
    let evaluation = evaluate(&openapi_endpoints, &None, &vec![create_endpoint_b()], &Vec::new());
    assert_eq!(evaluation.relevant_endpoints, 2);
    assert_eq!(evaluation.covered_endpoints, 1);
    assert_close(test_coverage(&evaluation), 0.5);
}

#[test]
fn declared_template_is_covered_by_concrete_traffic() {
    let openapi_endpoints = vec![endpoint(Method::GET, "/users/{id}", 200), endpoint(Method::GET, "/users/{id}", 404)];
    let observed = vec![endpoint(Method::GET, "/users/17", 200)];

    let evaluation = evaluate(&openapi_endpoints, &None, &observed, &Vec::new());
    assert_eq!(evaluation.covered_endpoints, 1);
    assert_eq!(evaluation.endpoints_not_covered[0].status_code, 404);
}

#[test]
fn later_hit_rescues_earlier_members_of_a_grouping() {
    let openapi_endpoints = vec![create_endpoint_a(), create_endpoint_b(), create_endpoint_c()];
    let grouping = Grouping::new(
        vec![Method::GET, Method::POST],
        vec![200],
        OpenapiPath::from_str("/{foo}").unwrap(),
        false,
    );
    let observed = vec![create_endpoint_c()];

    let evaluation = evaluate(&openapi_endpoints, &None, &observed, &vec![grouping]);
    assert_eq!(evaluation.covered_endpoints, 3);
    assert!(evaluation.endpoints_not_covered.is_empty());
}

#[test]
fn compare_endpoints_of_a_list_with_itself_is_empty() {
    let a = vec![create_endpoint_c(), create_endpoint_a(), create_endpoint_b(), create_endpoint_a()];
    let shuffled = vec![create_endpoint_a(), create_endpoint_b(), create_endpoint_c(), create_endpoint_c()];

    assert!(compare_endpoints(&a, &a).is_empty());
    assert!(compare_endpoints(&a, &shuffled).is_empty());
    assert!(compare_endpoints(&shuffled, &a).is_empty());
    assert!(compare_endpoints(&Vec::new(), &Vec::new()).is_empty());
}

#[test]
fn compare_endpoints_reports_the_extra_element() {
    let a = vec![create_endpoint_a(), create_endpoint_b(), create_endpoint_c()];
    let b = vec![create_endpoint_b(), create_endpoint_a()];

    let residual = compare_endpoints(&a, &b);
    assert_eq!(residual.len(), 1);
    assert!(*residual[0] == create_endpoint_c());

    let residual = compare_endpoints(&b, &a);
    assert_eq!(residual.len(), 1);
    assert!(*residual[0] == create_endpoint_c());
}

#[test]
fn compare_endpoints_lists_both_sides_in_order() {
    let a = vec![
        endpoint(Method::POST, "/z", 200),
        endpoint(Method::GET, "/b", 404),
        endpoint(Method::GET, "/b", 200),
        endpoint(Method::GET, "/shared", 200),
        endpoint(Method::GET, "/a", 500),
        endpoint(Method::GET, "/b", 200),
    ];
    let b = vec![endpoint(Method::PUT, "/only-b", 200), endpoint(Method::GET, "/shared", 200)];

    let residual = compare_endpoints(&a, &b);
    let expected = vec![
        endpoint(Method::GET, "/a", 500),
        endpoint(Method::GET, "/b", 200),
        endpoint(Method::GET, "/b", 404),
        endpoint(Method::POST, "/z", 200),
        endpoint(Method::PUT, "/only-b", 200),
    ];
    assert_eq!(residual.len(), expected.len());
    for k in 0..expected.len() {
        assert!(*residual[k] == expected[k]);
    }
    assert!(std::ptr::eq(residual[1], &a[2]));
}
