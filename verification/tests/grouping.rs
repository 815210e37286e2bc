use std::sync::Arc;

use coveapi::config::{OpenapiSource, Runtime};
use coveapi::models::{EndpointConfiguration, Grouping, Method, OpenapiPath};

fn mock_runtime() -> Runtime {
    Runtime {
        openapi_source: OpenapiSource::Url("https://example.com/".to_string()),
        app_base_url: "https://example.com/".to_string(),
        port: 8080,
    }
}

#[test]
fn grouping_detects_incompased_endpoint() {
    let grouping = Grouping::new(
        vec![Method::GET],
        vec![200],
        OpenapiPath::from_str("/foo/{bar}").unwrap(),
        false,
    );
    let endpoint = EndpointConfiguration::new(Method::GET, "/foo/69", 200, Arc::from(mock_runtime()), false).unwrap();

    assert!(grouping.incompases_endpoint_config(&endpoint));
}

#[test]
fn different_status_leads_to_not_incompased() {
    let grouping = Grouping::new(
        vec![Method::POST],
        vec![418],
        OpenapiPath::from_str("/foo/{bar}").unwrap(),
        false,
    );
    let endpoint = EndpointConfiguration::new(Method::GET, "/foo/69", 200, Arc::from(mock_runtime()), false).unwrap();

    assert!(!grouping.incompases_endpoint_config(&endpoint));
}

#[test]
fn different_method_leads_to_not_incompased() {
    let grouping = Grouping::new(
        vec![Method::POST],
        vec![200],
        OpenapiPath::from_str("/foo/{bar}").unwrap(),
        false,
    );
    let endpoint = EndpointConfiguration::new(Method::GET, "/foo/69", 200, Arc::from(mock_runtime()), false).unwrap();

    assert!(!grouping.incompases_endpoint_config(&endpoint));
}

#[test]
fn different_path_leads_to_not_incompased() {
    let grouping = Grouping::new(
        vec![Method::GET, Method::POST],
        vec![200, 404],
        OpenapiPath::from_str("/foo/{bar}").unwrap(),
        false,
    );
    let inside = EndpointConfiguration::new(Method::POST, "/foo/1", 404, Arc::from(mock_runtime()), false).unwrap();
    let outside = EndpointConfiguration::new(Method::POST, "/moo/1", 404, Arc::from(mock_runtime()), false).unwrap();

    assert!(grouping.incompases_endpoint_config(&inside));
    assert!(!grouping.incompases_endpoint_config(&outside));
}

#[test]
fn grouping_matches_the_declared_template_as_text() {
    let grouping = Grouping::new(vec![Method::GET], vec![200], OpenapiPath::from_str("/foo/{bar}").unwrap(), true);
    let declared = EndpointConfiguration::new(Method::GET, "/foo/{id}", 200, Arc::from(mock_runtime()), false).unwrap();

    assert!(grouping.incompases_endpoint_config(&declared));
    assert!(grouping.is_ignore_group);
    assert!(grouping.is_ignore());
}

#[test]
fn groupings_are_equal_when_all_parts_are() {
    let make = |ignore: bool| {
        Grouping::new(vec![Method::GET], vec![200], OpenapiPath::from_str("/foo/{bar}").unwrap(), ignore)
    };
    assert!(make(false) == make(false));
    assert!(make(false) != make(true));
    assert!(
        make(false) != Grouping::new(vec![Method::GET], vec![201], OpenapiPath::from_str("/foo/{bar}").unwrap(), false)
    );
}
