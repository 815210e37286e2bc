use std::sync::Arc;

use coveapi::config::{OpenapiSource, Runtime};
use coveapi::models::{Method, OpenapiPath};
use coveapi::parser::json_parser::{parse_json_doc, parse_json_value};
use coveapi::utils::Error;

fn create_mock_runtime() -> Runtime {
    Runtime {
        openapi_source: OpenapiSource::Url("https://example.com/".to_string()),
        app_base_url: "https://example.com/".to_string(),
        port: 8080,
    }
}

const JSON_STRING: &str = r#"
    {
        "basePath": "/",
        "paths" : {
            "/": {
                "get": {
                    "security": [],
                    "responses": {
                        "200": {
                            "description": "OK",
                            "schema": {
                                "$ref": " #/definitions/controller.IsValid"
                            }
                        },
                        "400": {
                            "description": "Bad Request",
                            "schema": {
                                "$ref": " #/definitions/util.ErrorMessage"
                            }
                        }
                    }
                },
                "put": {
                    "responses": {
                        "418": {
                            "description": "I'm a teapot",
                            "schema": {
                                "$ref": " #/definitions/controller.IsValid"
                            }
                        }
                    }
                }
            },
            "/test": {
                "post": {
                    "responses": {
                        "418": {
                            "description": "I'm a teapot",
                            "schema": {
                                "$ref": " #/definitions/controller.IsValid"
                            }
                        }
                    }
                }
            }
        }
    }
    "#;

#[test]
fn parses_correct_number_of_responses() {
    assert_eq!(
        parse_json_doc(JSON_STRING, Arc::from(create_mock_runtime()))
            .unwrap()
            .len(),
        6
    );
}

#[test]
fn parses_correct_status_codes() {
    assert!(parse_json_doc(JSON_STRING, Arc::from(create_mock_runtime()))
        .unwrap()
        .iter()
        .any(|x| x.status_code == 200));
    assert!(parse_json_doc(JSON_STRING, Arc::from(create_mock_runtime()))
        .unwrap()
        .iter()
        .any(|x| x.status_code == 400));
    assert!(parse_json_doc(JSON_STRING, Arc::from(create_mock_runtime()))
        .unwrap()
        .iter()
        .any(|x| x.status_code == 418));
}

#[test]
fn json_parser_parses_correct_path() {
    assert!(parse_json_doc(JSON_STRING, Arc::from(create_mock_runtime()))
        .unwrap()
        .iter()
        .any(|x| x.path == OpenapiPath::from_str("/").unwrap()));
    assert!(parse_json_doc(JSON_STRING, Arc::from(create_mock_runtime()))
        .unwrap()
        .iter()
        .any(|x| x.path == OpenapiPath::from_str("/test").unwrap()));
}

#[test]
fn json_parser_parses_correct_method() {
    assert!(parse_json_doc(JSON_STRING, Arc::from(create_mock_runtime()))
        .unwrap()
        .iter()
        .any(|x| x.method == Method::GET));
    assert!(parse_json_doc(JSON_STRING, Arc::from(create_mock_runtime()))
        .unwrap()
        .iter()
        .any(|x| x.method == Method::POST));
    assert!(parse_json_doc(JSON_STRING, Arc::from(create_mock_runtime()))
        .unwrap()
        .iter()
        .any(|x| x.method == Method::PUT));
}

#[test]
fn json_parser_adds_401_403_for_security_headers() {
    assert_eq!(
        parse_json_doc(JSON_STRING, Arc::from(create_mock_runtime()))
            .unwrap()
            .iter()
            .filter(|x| x.method == Method::GET
                && x.status_code == 401
                && x.path == OpenapiPath::from_str("/").unwrap())
            .count(),
        1
    );
    assert_eq!(
        parse_json_doc(JSON_STRING, Arc::from(create_mock_runtime()))
            .unwrap()
            .iter()
            .filter(|x| x.method == Method::GET
                && x.status_code == 403
                && x.path == OpenapiPath::from_str("/").unwrap())
            .count(),
        1
    );
}

const JSON_STRING_DIFF_BASEPATH: &str = r#"
    {
        "basePath": "/foo",
        "paths" : {
            "/": {
                "get": {
                    "responses": {
                        "200": {
                            "description": "OK",
                            "schema": {
                                "$ref": " #/definitions/controller.IsValid"
                            }
                        }
                    }
                }
            },
            "/bar": {
                "get": {
                    "responses": {
                        "200": {
                            "description": "OK",
                            "schema": {
                                "$ref": " #/definitions/controller.IsValid"
                            }
                        }
                    }
                }
            }
        }
    }
    "#;

#[test]
fn parses_correct_basepath() {
    assert!(
        parse_json_doc(JSON_STRING_DIFF_BASEPATH, Arc::from(create_mock_runtime()))
            .unwrap()
            .iter()
            .any(|x| x.path == OpenapiPath::from_str("/foo").unwrap())
    );
    assert!(
        parse_json_doc(JSON_STRING_DIFF_BASEPATH, Arc::from(create_mock_runtime()))
            .unwrap()
            .iter()
            .any(|x| x.path == OpenapiPath::from_str("/foo/bar").unwrap())
    );
}

fn summary(document: &str) -> Result<Vec<(Method, String, u16, bool)>, Error> {
    parse_json_doc(document, Arc::from(create_mock_runtime())).map(|endpoints| {
        endpoints
            .iter()
            .map(|x| (x.method, x.path.original_source().to_string(), x.status_code, x.is_generated))
            .collect()
    })
}

#[test]
fn endpoints_implied_by_security_are_generated() {
    let endpoints = parse_json_doc(JSON_STRING, Arc::from(create_mock_runtime())).unwrap();
    let implied: Vec<_> = endpoints.iter().filter(|x| x.status_code == 401 || x.status_code == 403).collect();
    assert_eq!(implied.len(), 2);
    assert!(implied.iter().all(|x| x.is_generated && x.method == Method::GET));
    assert!(endpoints
        .iter()
        .filter(|x| x.status_code != 401 && x.status_code != 403)
        .all(|x| !x.is_generated));
}

#[test]
fn json_endpoints_come_in_the_order_of_the_document() {
    assert_eq!(
        summary(JSON_STRING).unwrap(),
        vec![
            (Method::GET, "/".to_string(), 401, true),
            (Method::GET, "/".to_string(), 403, true),
            (Method::GET, "/".to_string(), 200, false),
            (Method::GET, "/".to_string(), 400, false),
            (Method::PUT, "/".to_string(), 418, false),
            (Method::POST, "/test".to_string(), 418, false),
        ]
    );
}

#[test]
fn json_documents_are_refused_for_their_faults() {
    assert_eq!(summary("{"), Err(Error::InvalidParseSyntax));
    assert_eq!(summary("[]"), Err(Error::InvalidParseSyntax));
    assert_eq!(summary("{}"), Err(Error::InvalidParseSyntax));
    assert_eq!(summary(r#"{"paths": null}"#), Err(Error::InvalidParseSyntax));
    assert_eq!(summary(r#"{"basePath": 3, "paths": {}}"#), Err(Error::InvalidBasePath));
    assert_eq!(summary(r#"{"basePath": {}, "paths": null}"#), Err(Error::InvalidBasePath));
    assert_eq!(
        summary(r#"{"paths": {"/a": {"get": {"responses": {"200": {}}}, "fetch": {}}}}"#),
        Err(Error::InvalidParseMethod("fetch".to_string()))
    );
    assert_eq!(
        summary(r#"{"paths": {"/a": {"get": {}}}}"#),
        Err(Error::InvalidParseSyntax)
    );
    assert_eq!(
        summary(r#"{"paths": {"/a": {"get": {"responses": {"200": {}, "2xx": {}}}}}}"#),
        Err(Error::InvalidParseStatusCode("2xx".to_string()))
    );
    assert_eq!(
        summary(r#"{"paths": {"/a": {"get": {"responses": {"default": {}}}}}}"#),
        Err(Error::InvalidParseStatusCode("default".to_string()))
    );
}

#[test]
fn json_documents_with_little_in_them_are_read() {
    assert_eq!(summary(r#"{"paths": {}}"#), Ok(vec![]));
    assert_eq!(summary(r#"{"paths": 7}"#), Ok(vec![]));
    assert_eq!(summary(r#"{"basePath": null, "paths": {"/a": 5}}"#), Ok(vec![]));
    assert_eq!(summary(r#"{"paths": {"/a": {"get": {"responses": 1}}}}"#), Ok(vec![]));
    assert_eq!(
        summary(r#"{"paths": {"/": {"GET": {"security": null, "responses": {"204": 0}}}}}"#),
        Ok(vec![(Method::GET, "/".to_string(), 204, false)])
    );
    assert_eq!(
        summary(r#"{"basePath": "/v1/", "paths": {"/": {"get": {"responses": {"200": 0}}}, "x": {"put": {"security": 1, "responses": {}}}}}"#),
        Ok(vec![
            (Method::GET, "/v1".to_string(), 200, false),
            (Method::PUT, "/v1x".to_string(), 401, true),
            (Method::PUT, "/v1x".to_string(), 403, true),
        ])
    );
}

#[test]
fn odd_json_documents_are_answered_without_a_crash() {
    let deep = "[".repeat(20000);
    let deep_objects = "{\"a\":".repeat(5000);
    let odd = vec![
        "".to_string(),
        "\u{0}".to_string(),
        "nul".to_string(),
        "\"\\ud800\"".to_string(),
        "1e999999".to_string(),
        "{\"a\":1,\"a\":2}".to_string(),
        "\u{feff}{}".to_string(),
        deep,
        deep_objects,
    ];
    for document in odd {
        let _ = parse_json_doc(&document, Arc::from(create_mock_runtime()));
    }
}

#[test]
fn json_value_is_read_like_its_text() {
    let text = r#"{"basePath": "/b", "paths": {"/x": {"delete": {"responses": {"204": {}}}}}}"#;
    let value = json::parse(text).unwrap();
    let from_value = parse_json_value(&value, Arc::from(create_mock_runtime())).unwrap();
    let from_text = parse_json_doc(text, Arc::from(create_mock_runtime())).unwrap();
    assert_eq!(from_value.len(), 1);
    assert!(from_value[0] == from_text[0]);
    assert_eq!(from_value[0].method, Method::DELETE);
    assert_eq!(from_value[0].path.original_source(), "/b/x");
    assert_eq!(from_value[0].status_code, 204);

    let mut built = json::JsonValue::new_object();
    built["paths"] = json::JsonValue::new_object();
    assert!(parse_json_value(&built, Arc::from(create_mock_runtime())).unwrap().is_empty());
    assert_eq!(
        parse_json_value(&json::JsonValue::Null, Arc::from(create_mock_runtime())),
        Err(Error::InvalidParseSyntax)
    );
}
