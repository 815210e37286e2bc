//! The configuration of the proxy: a template in which markers are replaced
//! by what the services under test need.

use std::sync::Arc;
use vstd::prelude::*;
use vstd::string::StringExecFns;
use crate::config::CoveAPIConfig;
use crate::config::ConfigView;
use crate::config::Runtime;
use crate::config::RuntimeView;
use crate::utils::text::decimal;
use crate::utils::text::decimal_text;
use crate::utils::text::replace_all;
use crate::utils::text::replaced;

verus! {

/// The marker for the URL that requests are passed on to.
pub const URL_MARKER: &'static str = "INSERT_URL_HERE";

/// The marker for the port that the proxy listens on.
pub const PORT_MARKER: &'static str = "INSERT_PORT_HERE";

/// The marker for the server blocks of the services.
pub const CONFIGURATIONS_MARKER: &'static str = "INSERT_CONFIGURATIONS_HERE";

/// The line of the template that switches the error log off.
pub const ERROR_LOG_OFF: &'static str = "error_log  off;";

/// The line that switches the error log on.
pub const ERROR_LOG_ON: &'static str = "error_log  /var/log/nginx/error.log notice;";

/// The server block of one service, with markers for its port and its URL.
pub const BASE_CONFIGURATION_STRUCTURE: &'static str = "
    server {
        listen INSERT_PORT_HERE;
        location /502 {
            return 502 'CoveAPI could not connect to your service, please double check that you specified the correct uri.';
        }
        location / {
            proxy_pass INSERT_URL_HERE;
        }
    }
    ";

/// The server block of `runtime`.
pub open spec fn runtime_configuration(runtime: RuntimeView) -> Seq<char> {
    replaced(
        replaced(BASE_CONFIGURATION_STRUCTURE@, PORT_MARKER@, decimal(runtime.port as nat)),
        URL_MARKER@,
        runtime.app_base_url,
    )
}

/// The server blocks of the first `n` of `runtimes`, one after the other.
pub open spec fn runtime_configurations(runtimes: Seq<RuntimeView>, n: int) -> Seq<char>
    decreases n,
{
    if n <= 0 {
        Seq::empty()
    } else {
        runtime_configurations(runtimes, n - 1) + runtime_configuration(runtimes[n - 1])
    }
}

/// The configuration of the proxy that `template` gives for `config`: with
/// the error log switched on where `config` asks for debugging, and with the
/// server blocks of the services in the place of their marker.
pub open spec fn configuration_filled(template: Seq<char>, config: ConfigView) -> Seq<char> {
    let logged = if config.debug {
        replaced(template, ERROR_LOG_OFF@, ERROR_LOG_ON@)
    } else {
        template
    };
    replaced(
        logged,
        CONFIGURATIONS_MARKER@,
        runtime_configurations(config.runtimes, config.runtimes.len() as int),
    )
}

/// `base` with `url` in the place of each marker for the URL.
pub fn replace_url(base: &String, url: &str) -> (replaced_base: String)
    ensures
        replaced_base@ == replaced(base@, URL_MARKER@, url@),
{
    replace_all(base.as_str(), URL_MARKER, url)
}

/// `base` with the error log switched on wherever it is switched off.
pub fn replace_error_log(base: &String) -> (replaced_base: String)
    ensures
        replaced_base@ == replaced(base@, ERROR_LOG_OFF@, ERROR_LOG_ON@),
{
    replace_all(base.as_str(), ERROR_LOG_OFF, ERROR_LOG_ON)
}

/// `base` with `port`, in decimal, in the place of each marker for the port.
pub fn replace_port_number(base: &String, port: u16) -> (replaced_base: String)
    ensures
        replaced_base@ == replaced(base@, PORT_MARKER@, decimal(port as nat)),
{
    let port_text = decimal_text(port);
    replace_all(base.as_str(), PORT_MARKER, port_text.as_str())
}

/// The server block of `runtime`.
pub fn build_runtime_config(runtime: &Runtime) -> (config: String)
    ensures
        config@ == runtime_configuration(runtime@),
{
    let config = String::from_str(BASE_CONFIGURATION_STRUCTURE);
    let config = replace_port_number(&config, runtime.port);
    let config = replace_url(&config, runtime.app_base_url.as_str());
    config
}

/// `base` with the server blocks of `runtimes` in the place of their marker.
pub fn replace_runtime_configurations(base: &String, runtimes: &Vec<Arc<Runtime>>) -> (replaced_base: String)
    ensures
        replaced_base@ == replaced(
            base@,
            CONFIGURATIONS_MARKER@,
            runtime_configurations(
                runtimes@.map_values(|runtime: Arc<Runtime>| runtime@),
                runtimes@.len() as int,
            ),
        ),
{
    let ghost all = runtimes@.map_values(|runtime: Arc<Runtime>| runtime@);
    let mut config_string = String::new();
    let mut k: usize = 0;
    while k < runtimes.len()
        invariant
            k <= runtimes@.len(),
            all == runtimes@.map_values(|runtime: Arc<Runtime>| runtime@),
            config_string@ == runtime_configurations(all, k as int),
        decreases runtimes@.len() - k,
    {
        let block = build_runtime_config(&runtimes[k]);
        assert(all[k as int] == runtimes@[k as int]@);
        config_string.append(block.as_str());
        k += 1;
    }
    replace_all(base.as_str(), CONFIGURATIONS_MARKER, config_string.as_str())
}

/// The configuration of the proxy that the template `config_string` gives
/// for `config`.
pub fn fill_configuration(config: &CoveAPIConfig, config_string: String) -> (filled: String)
    ensures
        filled@ == configuration_filled(config_string@, config@),
{
    let mut config_string = config_string;
    if config.debug {
        config_string = replace_error_log(&config_string);
    }
    replace_runtime_configurations(&config_string, &config.runtimes)
}

} // verus!
