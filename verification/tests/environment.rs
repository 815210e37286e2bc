use coveapi::config::environment::{
    build_runtime, check_runtime_compatability, check_sources, get_bool_env_var, key_exists_and_is_not_empty,
    parse_bool, parse_complex_mapping, parse_grouping, parse_grouping_strings, parse_runtime,
    parse_untill_mapping_subdelimiter, replace_escaped_sequences, ENV_VAR_ACCOUNT_FOR_FORBIDDEN,
    ENV_VAR_ACCOUNT_FOR_UNAUTORIZED, ENV_VAR_APP_BASE_URL, ENV_VAR_DEBUG, ENV_VAR_GROUPINGS,
    ENV_VAR_IS_MERGE, ENV_VAR_MAPPING, ENV_VAR_ONLY_ACCOUNT_MERGE, ENV_VAR_OPENAPI_SOURCE,
    ENV_VAR_PORT,
};
use coveapi::config::{CoveAPIConfig, OpenapiSource, StringHashMap};
use coveapi::models::{Grouping, Method, OpenapiPath};
use coveapi::utils::Error;

fn generate_config_map() -> StringHashMap<String> {
    let mut config_map = StringHashMap::new();

    config_map.insert(String::from(ENV_VAR_DEBUG), String::from("1"));
    config_map.insert(
        String::from(ENV_VAR_OPENAPI_SOURCE),
        String::from("./dump/swagger.json"),
    );
    config_map.insert(
        String::from(ENV_VAR_APP_BASE_URL),
        String::from("http://localhost:8080"),
    );
    config_map
}

#[test]
fn can_fetch_valid_openapi_path() {
    let config_map = generate_config_map();
    assert_eq!(
        CoveAPIConfig::from_raw(&config_map).unwrap().runtimes[0].openapi_source,
        OpenapiSource::Path("./dump/swagger.json".to_string())
    );
}

#[test]
fn can_fetch_valid_url() {
    assert_eq!(
        CoveAPIConfig::from_raw(&generate_config_map()).unwrap().runtimes[0]
            .app_base_url
            .as_str(),
        "http://localhost:8080/"
    );
}

#[test]
fn can_catch_invalid_url() {
    let mut config_map = generate_config_map();
    config_map.insert(ENV_VAR_APP_BASE_URL.to_string(), String::from("jjjjjj"));
    if CoveAPIConfig::from_raw(&config_map).is_ok() {
        panic!("Should throw error here")
    }
}

#[test]
fn missing_keys_lead_to_err() {
    let mut config_map = generate_config_map();
    config_map.remove(ENV_VAR_APP_BASE_URL);
    assert!(CoveAPIConfig::from_raw(&config_map).is_err());
}

#[test]
fn nonzero_bool_is_true() {
    let mut config_map = generate_config_map();
    assert!(get_bool_env_var(ENV_VAR_DEBUG, &config_map));
    config_map.insert(ENV_VAR_DEBUG.to_string(), String::from("2"));
    assert!(get_bool_env_var(ENV_VAR_DEBUG, &config_map));
}

#[test]
fn zero_or_empty_bool_is_false() {
    let mut config_map = generate_config_map();

    config_map.insert(ENV_VAR_DEBUG.to_string(), String::from("0"));
    assert!(!get_bool_env_var(ENV_VAR_DEBUG, &config_map));

    config_map.insert(ENV_VAR_DEBUG.to_string(), String::from(""));
    assert!(!get_bool_env_var(ENV_VAR_DEBUG, &config_map));
}

#[test]
fn non_existant_bool_is_false_no_error() {
    let mut config_map = generate_config_map();
    config_map.remove(ENV_VAR_DEBUG);
    assert!(!get_bool_env_var(ENV_VAR_DEBUG, &config_map));
}

#[test]
fn debug_val_is_used() {
    let config_map = generate_config_map();
    assert!(CoveAPIConfig::from_raw(&config_map).unwrap().debug);
}

#[test]
fn account_for_security_val_is_used() {
    let config_map = generate_config_map();
    assert!(
        !CoveAPIConfig::from_raw(&config_map)
            .unwrap()
            .security_accounts_for_forbidden
    );
}

#[test]
fn configuration_defaults_to_port_13750() {
    let config_map = generate_config_map();
    assert_eq!(CoveAPIConfig::from_raw(&config_map).unwrap().runtimes[0].port, 13750);
}

#[test]
fn configuration_recognises_port_number() {
    let mut config_map = generate_config_map();
    config_map.insert(ENV_VAR_PORT.to_string(), "9999".to_string());
    assert_eq!(CoveAPIConfig::from_raw(&config_map).unwrap().runtimes[0].port, 9999);
}

#[test]
fn configuration_throws_error_for_invalid_port() {
    let mut config_map = generate_config_map();
    config_map.insert(ENV_VAR_PORT.to_string(), "albert".to_string());
    assert!(CoveAPIConfig::from_raw(&config_map).is_err());
    config_map.insert(ENV_VAR_PORT.to_string(), "65537".to_string());
    assert!(CoveAPIConfig::from_raw(&config_map).is_err());
}

#[test]
fn throws_error_if_any_parallel_configuration_with_mapping_is_donw() {
    let mut config_map = generate_config_map();

    config_map.insert(
        ENV_VAR_MAPPING.to_string(),
        "https://localhost:8090; docs/swagger1.yaml; 13751;".to_string(),
    );
    assert!(CoveAPIConfig::from_raw(&config_map).is_err());

    config_map.remove(ENV_VAR_APP_BASE_URL);
    assert!(CoveAPIConfig::from_raw(&config_map).is_err());

    config_map.remove(ENV_VAR_OPENAPI_SOURCE);
    config_map.insert(
        String::from(ENV_VAR_APP_BASE_URL),
        String::from("http://localhost:8080"),
    );
    assert!(CoveAPIConfig::from_raw(&config_map).is_err());

    config_map.remove(ENV_VAR_APP_BASE_URL);
    config_map.insert(ENV_VAR_PORT.to_string(), "8080".to_string());
    assert!(CoveAPIConfig::from_raw(&config_map).is_err());
}

#[test]
fn throws_error_if_no_configuration_or_mapping_is_provided() {
    let config_map = StringHashMap::new();
    assert!(CoveAPIConfig::from_raw(&config_map).is_err());
}

#[test]
fn can_recognise_if_env_var_is_empty() {
    let mut config_map = StringHashMap::new();
    const KEY: &str = "KEY";
    config_map.insert(KEY.to_string(), "".to_string());
    assert!(!key_exists_and_is_not_empty(KEY, &config_map));
}

#[test]
fn can_recognise_if_env_var_is_not_empty() {
    let mut config_map = StringHashMap::new();
    const KEY: &str = "KEY";
    config_map.insert(KEY.to_string(), "test".to_string());
    assert!(key_exists_and_is_not_empty(KEY, &config_map));
}

#[test]
fn can_recognise_if_env_var_doesnt_exist() {
    let config_map = StringHashMap::new();
    const KEY: &str = "KEY";
    assert!(!key_exists_and_is_not_empty(KEY, &config_map));
}

#[test]
fn passing_in_basic_parameters_leads_to_default_runtime_being_initialized() {
    let mut config_map = generate_config_map();
    config_map.insert(ENV_VAR_PORT.to_string(), "8080".to_string());
    let config = CoveAPIConfig::from_raw(&config_map).unwrap();

    assert_eq!(config.runtimes.len(), 1);
    assert_eq!(config.runtimes[0].port, 8080);
}

#[test]
fn parses_basic_mapping() {
    let runtimes = parse_complex_mapping("https://localhost:8090; docs/swagger1.yaml; 13751;COVEAPI_LINE_SEPERATORhttps://example:8091; docs/swagger2.yaml; 13752;").unwrap();
    assert_eq!(runtimes.len(), 2);

    assert!(runtimes.iter().any(|x| x.port == 13751));
    assert!(runtimes.iter().any(|x| x.port == 13752));

    assert!(runtimes
        .iter()
        .any(|x| x.openapi_source == OpenapiSource::Path("docs/swagger1.yaml".to_string())));
    assert!(runtimes
        .iter()
        .any(|x| x.openapi_source == OpenapiSource::Path("docs/swagger2.yaml".to_string())));

    assert!(runtimes
        .iter()
        .any(|x| x.app_base_url.as_str() == "https://localhost:8090/"));
    assert!(runtimes
        .iter()
        .any(|x| x.app_base_url.as_str() == "https://example:8091/"));
}

#[test]
fn allows_different_whitespace_ammounts() {
    let runtimes = parse_complex_mapping("\n   https://localhost:8090; docs/swagger1.yaml     ; 13751   ;\n\n");
    assert!(runtimes.is_ok())
}

#[test]
fn allows_escaping_of_semicolon() {
    let runtimes = parse_complex_mapping(r"https://localhost:8090; docs/swagger\;1.yaml; 13751;").unwrap();
    assert_eq!(
        runtimes[0].openapi_source,
        OpenapiSource::Path("docs/swagger;1.yaml".to_string())
    );
}

#[test]
fn mapping_gets_recognised_in_happy_case() {
    let mut config_map = StringHashMap::new();
    config_map.insert(
        ENV_VAR_MAPPING.to_string(),
        "https://localhost:8090; docs/swagger1.yaml; 13751;COVEAPI_LINE_SEPERATORhttps://example:8091; docs/swagger2.yaml; 13752;".to_string()
    );
    let config = CoveAPIConfig::from_raw(&config_map).unwrap();
    assert_eq!(config.runtimes.len(), 2)
}

#[test]
fn duplicate_ports_lead_to_error_in_mapping() {
    let mut config_map = StringHashMap::new();
    config_map.insert(
        ENV_VAR_MAPPING.to_string(),
        "https://localhost:8090; docs/swagger1.yaml; 13751;COVEAPI_LINE_SEPERATORhttps://example:8091; docs/swagger2.yaml; 13751;".to_string()
    );
    assert!(CoveAPIConfig::from_raw(&config_map).is_err());
}

#[test]
fn parses_till_limit() {
    let test_str = "test test; 123";
    let index = 0;
    let result = parse_untill_mapping_subdelimiter(index, test_str).unwrap();

    assert_eq!(result.0, "test test");
}

#[test]
fn skips_over_escaped_chars() {
    let test_str = "test\\; \\test; 123";
    let index = 0;
    let result = parse_untill_mapping_subdelimiter(index, test_str).unwrap();

    assert_eq!(result.0, "test\\; \\test");
}

#[test]
fn returns_error_if_missing_delimiter() {
    let test_str = "test test";
    let index = 0;
    let result = parse_untill_mapping_subdelimiter(index, test_str);
    assert!(result.is_err());
}

#[test]
fn remove_escaped_sequences_replaces_escape_sequences() {
    let test_str = "test\\; \\test; 123";
    assert_eq!(replace_escaped_sequences(test_str), "test; \\test; 123");
}

#[test]
fn remove_escaped_sequences_ignored_unescaped() {
    let test_str = "test; \\test; 123";
    assert_eq!(replace_escaped_sequences(test_str), test_str);
}

#[test]
fn regocnises_forbidden_security_flag_in_config() {
    let mut env_vars = generate_config_map();
    env_vars.insert(ENV_VAR_ACCOUNT_FOR_FORBIDDEN.to_string(), "1".to_string());

    let config = CoveAPIConfig::from_raw(&env_vars).unwrap();
    assert!(config.security_accounts_for_forbidden);
}

#[test]
fn regocnises_unautorized_security_flag_in_config() {
    let mut env_vars = generate_config_map();
    env_vars.insert(ENV_VAR_ACCOUNT_FOR_UNAUTORIZED.to_string(), "1".to_string());

    let config = CoveAPIConfig::from_raw(&env_vars).unwrap();
    assert!(config.security_accounts_for_unautorized);
}

#[test]
fn security_is_off_by_default() {
    let env_vars = generate_config_map();
    let config = CoveAPIConfig::from_raw(&env_vars).unwrap();
    assert!(!config.security_accounts_for_unautorized);
    assert!(!config.security_accounts_for_forbidden);
}

#[test]
fn regonises_merge() {
    let mut env_vars = generate_config_map();
    env_vars.insert(ENV_VAR_IS_MERGE.to_string(), "1".to_string());
    env_vars.insert(ENV_VAR_OPENAPI_SOURCE.to_string(), "http://example.com".to_string());
    let config = CoveAPIConfig::from_raw(&env_vars).unwrap();
    assert!(config.is_merge);
}

#[test]
fn recognises_if_account_merge() {
    let mut env_vars = generate_config_map();
    env_vars.insert(ENV_VAR_ONLY_ACCOUNT_MERGE.to_string(), "1".to_string());
    env_vars.insert(ENV_VAR_OPENAPI_SOURCE.to_string(), "http://example.com".to_string());
    let config = CoveAPIConfig::from_raw(&env_vars).unwrap();
    assert!(config.only_account_for_merge);
}

fn runtime_with_source(source: OpenapiSource) -> coveapi::config::Runtime {
    coveapi::config::Runtime { openapi_source: source, app_base_url: "https://example.com/".to_string(), port: 8080 }
}

#[test]
fn should_only_print_merge_if_openapi_source_is_file() {
    let mut config = CoveAPIConfig::from_raw(&generate_config_map()).unwrap();
    config.is_merge = true;
    config.runtimes = vec![std::sync::Arc::new(runtime_with_source(OpenapiSource::Url(
        "https://example.com/".to_string(),
    )))];

    assert!(!config.all_openapi_sources_are_paths())
}

#[test]
fn shoul_print_merge_if_is_merge_and_openapi_is_file() {
    let mut config = CoveAPIConfig::from_raw(&generate_config_map()).unwrap();
    config.is_merge = true;
    config.runtimes = vec![std::sync::Arc::new(runtime_with_source(OpenapiSource::Path("./dump".to_string())))];

    assert!(config.all_openapi_sources_are_paths())
}

#[test]
fn flag_texts_switch_on_or_off() {
    assert!(parse_bool("1"));
    assert!(parse_bool("true"));
    assert!(parse_bool("yes"));
    assert!(parse_bool(" "));
    assert!(parse_bool("00"));
    assert!(parse_bool("False"));
    assert!(!parse_bool("0"));
    assert!(!parse_bool(""));
    assert!(!parse_bool("false"));
    assert!(!parse_bool("nope"));
}

#[test]
fn field_reading_returns_the_next_position() {
    let line = "a;bc;;d";
    assert_eq!(parse_untill_mapping_subdelimiter(0, line).unwrap(), ("a", 2));
    assert_eq!(parse_untill_mapping_subdelimiter(2, line).unwrap(), ("bc", 5));
    assert_eq!(parse_untill_mapping_subdelimiter(5, line).unwrap(), ("", 6));
    assert_eq!(
        parse_untill_mapping_subdelimiter(6, line),
        Err(Error::MappingMissingSemicolon(line.to_string()))
    );
    assert!(parse_untill_mapping_subdelimiter(7, line).is_err());
    assert!(parse_untill_mapping_subdelimiter(8, line).is_err());
    assert!(parse_untill_mapping_subdelimiter(usize::MAX, line).is_err());
    assert_eq!(parse_untill_mapping_subdelimiter(0, ";").unwrap(), ("", 1));
    assert!(parse_untill_mapping_subdelimiter(0, "").is_err());
}

#[test]
fn field_reading_steps_over_escaped_characters() {
    assert_eq!(parse_untill_mapping_subdelimiter(0, "a\\;b;").unwrap(), ("a\\;b", 5));
    assert_eq!(parse_untill_mapping_subdelimiter(0, "a\\\\;b;").unwrap(), ("a\\\\;b", 6));
    assert!(parse_untill_mapping_subdelimiter(0, "a\\;").is_err());
    assert!(parse_untill_mapping_subdelimiter(0, "a\\").is_err());
}

#[test]
fn field_reading_stops_at_characters_of_several_bytes() {
    assert_eq!(parse_untill_mapping_subdelimiter(0, "ex\u{e4}mple;").unwrap(), ("ex", 3));
    assert!(parse_untill_mapping_subdelimiter(3, "ex\u{e4}mple;").is_err());
    assert_eq!(parse_untill_mapping_subdelimiter(4, "ex\u{e4}mple;").unwrap(), ("mple", 9));
}

#[test]
fn runtime_is_read_from_its_texts() {
    let runtime = parse_runtime(" docs/api.yaml ", " http://localhost:3000 ", Some(" 8081 ")).unwrap();
    assert_eq!(runtime.openapi_source, OpenapiSource::Path("docs/api.yaml".to_string()));
    assert_eq!(runtime.app_base_url, "http://localhost:3000/");
    assert_eq!(runtime.port, 8081);

    let runtime = parse_runtime("HTTP://Example.COM/api.json", "http://localhost:3000", None).unwrap();
    assert_eq!(
        runtime.openapi_source,
        OpenapiSource::Url("http://example.com/api.json".to_string())
    );
    assert_eq!(runtime.port, 13750);

    assert_eq!(
        parse_runtime("docs/api.yaml", "localhost", None),
        Err(Error::InvalidApplicationURL("relative URL without a base".to_string()))
    );
    assert_eq!(
        parse_runtime("docs/api.yaml", "http://localhost", Some(" 65536")),
        Err(Error::InvalidPortNumber(" 65536".to_string()))
    );
    assert_eq!(
        parse_runtime("docs/api.yaml", "http://localhost", Some("")),
        Err(Error::InvalidPortNumber("".to_string()))
    );
    assert_eq!(
        parse_runtime("docs/api.yaml", "http://localhost", Some("-1")),
        Err(Error::InvalidPortNumber("-1".to_string()))
    );
    assert_eq!(parse_runtime("a", "http://localhost", Some("+0080")).unwrap().port, 80);
    for refused in ["+", "++1", "0x10", "1_000", "1 0", "\u{ff11}\u{ff12}", "1.0", "1e3"] {
        assert_eq!(
            parse_runtime("a", "http://localhost", Some(refused)),
            Err(Error::InvalidPortNumber(refused.to_string()))
        );
    }
    assert_eq!(parse_runtime("a", "http://localhost", Some("\u{a0}0000000000000000000007\n")).unwrap().port, 7);
    assert_eq!(parse_runtime("a", "http://localhost", Some("65535")).unwrap().port, 65535);
}

#[test]
fn mapping_errors_are_told_apart() {
    assert_eq!(parse_complex_mapping(""), Err(Error::MissingMapping));
    assert_eq!(parse_complex_mapping(" \n COVEAPI_LINE_SEPERATOR\t"), Err(Error::MissingMapping));
    assert_eq!(
        parse_complex_mapping("http://a; b"),
        Err(Error::MappingMissingSemicolon("http://a; b".to_string()))
    );
    assert_eq!(
        parse_complex_mapping("http://a; b; 1;COVEAPI_LINE_SEPERATORhttp://c; d; 1;"),
        Err(Error::MappingDuplicatePorts)
    );
    assert_eq!(
        parse_complex_mapping("http://a; b; x;"),
        Err(Error::InvalidPortNumber(" x".to_string()))
    );
    assert!(matches!(
        parse_complex_mapping("nowhere; b; 1;"),
        Err(Error::InvalidApplicationURL(_))
    ));
}

#[test]
fn ports_are_checked_for_duplicates() {
    let a = parse_runtime("a", "http://localhost", Some("1")).unwrap();
    let b = parse_runtime("b", "http://localhost", Some("2")).unwrap();
    let c = parse_runtime("c", "http://localhost", Some("1")).unwrap();
    assert!(check_runtime_compatability(&vec![]));
    assert!(check_runtime_compatability(&vec![a.clone()]));
    assert!(check_runtime_compatability(&vec![a.clone(), b.clone()]));
    assert!(!check_runtime_compatability(&vec![a, b, c]));
}

#[test]
fn grouping_is_read_from_its_texts() {
    let grouping = parse_grouping_strings(" /foo/{bar} ", "get, POST ,put", "200, 404", " 1 ").unwrap();
    let expected = Grouping::new(
        vec![Method::GET, Method::POST, Method::PUT],
        vec![200, 404],
        OpenapiPath::from_str("/foo/{bar}").unwrap(),
        true,
    );
    assert!(grouping == expected);

    assert_eq!(
        parse_grouping_strings("/foo", "get,fetch,nothing", "abc", "0"),
        Err(Error::InvalidMethodString("fetch".to_string()))
    );
    assert_eq!(
        parse_grouping_strings("/foo", "get", "200, 70000", "0"),
        Err(Error::InvalidStatusCode(" 70000".to_string()))
    );
    assert_eq!(
        parse_grouping_strings("/foo", "", "200", "0"),
        Err(Error::InvalidMethodString("".to_string()))
    );
    assert!(!parse_grouping_strings("/foo", "get", "200", "false").unwrap().is_ignore_group);
}

#[test]
fn groupings_are_read_line_by_line_and_once_each() {
    let groupings = parse_grouping(
        "/a; GET; 200; 0;COVEAPI_LINE_SEPERATOR  COVEAPI_LINE_SEPERATOR/b/{x}; get,post; 200,201; 1;COVEAPI_LINE_SEPERATOR/a; GET; 200; 0;",
    )
    .unwrap();
    assert_eq!(groupings.len(), 2);
    assert!(
        groupings[0] == Grouping::new(vec![Method::GET], vec![200], OpenapiPath::from_str("/a").unwrap(), false)
    );
    assert!(
        groupings[1]
            == Grouping::new(
                vec![Method::GET, Method::POST],
                vec![200, 201],
                OpenapiPath::from_str("/b/{x}").unwrap(),
                true
            )
    );
    assert!(parse_grouping("").unwrap().is_empty());
    assert_eq!(
        parse_grouping("/a; GET; 200;"),
        Err(Error::MappingMissingSemicolon("/a; GET; 200;".to_string()))
    );
}

#[test]
fn configuration_reads_groupings() {
    let mut env_vars = generate_config_map();
    env_vars.insert(ENV_VAR_GROUPINGS.to_string(), "/a/{b}; GET; 200; 0;".to_string());
    let config = CoveAPIConfig::from_raw(&env_vars).unwrap();
    assert_eq!(config.groupings.len(), 1);

    env_vars.insert(ENV_VAR_GROUPINGS.to_string(), "/a/{b}; GET; 200;".to_string());
    assert!(matches!(
        CoveAPIConfig::from_raw(&env_vars),
        Err(Error::MappingMissingSemicolon(_))
    ));
}

#[test]
fn configuration_errors_are_told_apart() {
    let mut env_vars = StringHashMap::new();
    assert_eq!(check_sources(&env_vars), Err(Error::MissingConfiguration));
    assert_eq!(CoveAPIConfig::from_raw(&env_vars).unwrap_err(), Error::MissingConfiguration);

    env_vars.insert(ENV_VAR_MAPPING.to_string(), "http://a; b; 1;".to_string());
    assert_eq!(check_sources(&env_vars), Ok(()));
    env_vars.insert(ENV_VAR_PORT.to_string(), "1".to_string());
    assert_eq!(check_sources(&env_vars), Err(Error::ConflictingConfiguration));
    assert_eq!(
        CoveAPIConfig::from_raw(&env_vars).unwrap_err(),
        Error::ConflictingConfiguration
    );

    env_vars.insert(ENV_VAR_PORT.to_string(), "".to_string());
    assert_eq!(CoveAPIConfig::from_raw(&env_vars).unwrap().runtimes.len(), 1);
}

#[test]
fn error_messages_name_what_went_wrong() {
    assert_eq!(
        Error::InvalidPortNumber("x".to_string()).get_error_msg(),
        "The specified port number is invalid: \"x\""
    );
    assert_eq!(
        Error::ProblemOpeningFile("\"./a.json\"".to_string()).get_error_msg(),
        "An issue opening the openapi (\"./a.json\") file occured."
    );
    assert_eq!(
        Error::MappingDuplicatePorts.get_error_msg(),
        "The mapping contains duplicate ports, every port can only be used once."
    );
    assert_eq!(
        Error::UnknownInternalError("oops".to_string()).get_error_msg(),
        "An unknown internal error occured, please open an issue on github for this [oops]."
    );
    assert_eq!(
        Error::InvalidApplicationURL("empty host".to_string()).get_error_msg(),
        "Invalid application URL provided: empty host"
    );
}

#[test]
fn runtime_is_built_from_what_was_made_of_its_texts() {
    let url = |text: &str| Ok(text.to_string());
    let refusal = |text: &str| Err(text.to_string());

    let runtime = build_runtime(refusal("no"), "docs/a.yaml", url("http://app/"), Some(" 81 ")).unwrap();
    assert_eq!(runtime.openapi_source, OpenapiSource::Path("docs/a.yaml".to_string()));
    assert_eq!(runtime.app_base_url, "http://app/");
    assert_eq!(runtime.port, 81);

    let runtime = build_runtime(url("http://doc/"), "ignored", url("http://app/"), None).unwrap();
    assert_eq!(runtime.openapi_source, OpenapiSource::Url("http://doc/".to_string()));
    assert_eq!(runtime.port, 13750);

    assert_eq!(
        build_runtime(url("http://doc/"), "x", refusal("empty host"), Some("nine")),
        Err(Error::InvalidApplicationURL("empty host".to_string()))
    );
    assert_eq!(
        build_runtime(url("http://doc/"), "x", url("http://app/"), Some("nine")),
        Err(Error::InvalidPortNumber("nine".to_string()))
    );
}
