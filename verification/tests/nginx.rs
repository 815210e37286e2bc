use std::sync::Arc;

use coveapi::config::nginx::{
    build_runtime_config, fill_configuration, replace_error_log, replace_port_number,
    replace_runtime_configurations, replace_url,
};
use coveapi::config::{CoveAPIConfig, OpenapiSource, Runtime};

fn runtime(port: u16) -> Arc<Runtime> {
    Arc::from(Runtime {
        openapi_source: OpenapiSource::Url("http://example.com/".to_string()),
        app_base_url: "http://example.com/".to_string(),
        port,
    })
}

fn config(debug: bool, runtimes: Vec<Arc<Runtime>>) -> CoveAPIConfig {
    CoveAPIConfig {
        debug,
        security_accounts_for_forbidden: false,
        security_accounts_for_unautorized: false,
        runtimes,
        is_merge: false,
        only_account_for_merge: false,
        groupings: Vec::new(),
    }
}

#[test]
fn changes_marker_from_string() {
    let test_string = String::from("proxy_pass INSERT_URL_HERE");
    assert_eq!(
        replace_url(&test_string, "https://example.com"),
        "proxy_pass https://example.com"
    );
}

#[test]
fn generates_multiple_configurations() {
    let runtimes = vec![runtime(13750), runtime(123), runtime(456)];
    let config_string = replace_runtime_configurations(&"INSERT_CONFIGURATIONS_HERE".to_string(), &runtimes);
    assert!(config_string.contains("123"));
    assert!(config_string.contains("456"));
}

#[test]
fn replaces_log_when_debug_on() {
    let test_string = String::from("... stuff ... error_log  off; ... stuff ...");
    assert_eq!(
        replace_error_log(&test_string),
        "... stuff ... error_log  /var/log/nginx/error.log notice; ... stuff ..."
    );
}

#[test]
fn repaces_port_number() {
    let test_string = String::from("... stuff ... INSERT_PORT_HERE ... stuff ...");
    assert_eq!(
        replace_port_number(&test_string, 13567),
        "... stuff ... 13567 ... stuff ..."
    );
}

#[test]
fn replaces_every_marker() {
    let test_string = String::from("INSERT_PORT_HEREINSERT_PORT_HERE INSERT_PORT_HER INSERT_PORT_HERE");
    assert_eq!(replace_port_number(&test_string, 0), "00 INSERT_PORT_HER 0");
    assert_eq!(replace_port_number(&test_string, 65535), "6553565535 INSERT_PORT_HER 65535");
    assert_eq!(replace_port_number(&String::new(), 7), "");
    assert_eq!(replace_port_number(&"INSERT_PORT_HERE".to_string(), 100), "100");
    assert_eq!(replace_port_number(&"INSERT_PORT_HERE".to_string(), 1009), "1009");
}

#[test]
fn builds_the_server_block_of_a_runtime() {
    let block = build_runtime_config(&runtime(8080));
    assert_eq!(
        block,
        "
    server {
        listen 8080;
        location /502 {
            return 502 'CoveAPI could not connect to your service, please double check that you specified the correct uri.';
        }
        location / {
            proxy_pass http://example.com/;
        }
    }
    "
    );
}

#[test]
fn fills_the_template() {
    let template = "error_log  off;\nINSERT_CONFIGURATIONS_HERE\n";
    let quiet = fill_configuration(&config(false, vec![runtime(1), runtime(2)]), template.to_string());
    let expected_blocks = format!("{}{}", build_runtime_config(&runtime(1)), build_runtime_config(&runtime(2)));
    assert_eq!(quiet, format!("error_log  off;\n{}\n", expected_blocks));

    let loud = fill_configuration(&config(true, vec![runtime(1)]), template.to_string());
    assert_eq!(
        loud,
        format!(
            "error_log  /var/log/nginx/error.log notice;\n{}\n",
            build_runtime_config(&runtime(1))
        )
    );

    let none = fill_configuration(&config(false, Vec::new()), template.to_string());
    assert_eq!(none, "error_log  off;\n\n");
}
