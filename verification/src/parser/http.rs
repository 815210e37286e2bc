//! OpenAPI documents that are fetched from a URL: the address to fetch from,
//! and the reading of what was fetched.

use std::sync::Arc;
use url::Url;
use vstd::prelude::*;
use vstd::string::StringExecFns;
use crate::config::Runtime;
use crate::models::endpoint::EndpointConfiguration;
use crate::models::endpoint::EndpointRecord;
use crate::parser::json_parser::endpoints_view;
use crate::parser::json_parser::json_endpoints;
use crate::parser::json_parser::json_parsed;
use crate::parser::json_parser::parse_json_doc;
use crate::parser::yaml_parser::parse_yaml_doc;
use crate::parser::yaml_parser::yaml_text_endpoints;
use crate::config::share;
use crate::utils::error::Error;
use crate::utils::error::ErrorView;
use crate::utils::text::same_text;

verus! {

/// The name under which a service on the machine itself is known.
pub const LOCAL_HOST: &'static str = "localhost";

/// The address under which the machine is reached from within a container.
pub const HOST_FROM_CONTAINER: &'static str = "172.17.0.1";

/// The host of the URL `url`, as `Url::host_str` gives it for what
/// `Url::parse` makes of `url`; `None` where `url` is no URL or has no host.
pub uninterp spec fn url_host(url: Seq<char>) -> Option<Seq<char>>;

/// The URL `url` with the host `host` in the place of its own, as
/// `Url::set_host` leaves what `Url::parse` makes of `url`; `None` where
/// `url` is no URL or cannot take that host.
pub uninterp spec fn url_with_host(url: Seq<char>, host: Seq<char>) -> Option<Seq<char>>;

/// What `text` says, if there is one, as a sequence of characters.
pub open spec fn text_view(text: Option<String>) -> Option<Seq<char>> {
    match text {
        Some(text) => Some(text@),
        None => None,
    }
}

/// Calls `Url::parse`, and `Url::host_str` on what it accepts. The contract
/// only gives the outcome its name, [`url_host`].
#[verifier::external_body]
fn host_of(url: &str) -> (host: Option<String>)
    ensures
        text_view(host) == url_host(url@),
{
    match Url::parse(url) {
        Ok(url) => url.host_str().map(|host| host.to_string()),
        Err(_) => None,
    }
}

/// Calls `Url::parse`, and `Url::set_host` and `Url::as_str` on what it
/// accepts. The contract only gives the outcome its name,
/// [`url_with_host`].
#[verifier::external_body]
fn with_host(url: &str, host: &str) -> (moved: Option<String>)
    ensures
        text_view(moved) == url_with_host(url@, host@),
{
    match Url::parse(url) {
        Ok(mut parsed) => match parsed.set_host(Some(host)) {
            Ok(_) => Some(parsed.as_str().to_string()),
            Err(_) => None,
        },
        Err(_) => None,
    }
}

/// The address from which the document at `openapi_url` is fetched: where
/// the host is the machine itself, the address under which it is reached
/// takes its place.
pub open spec fn address_to_fetch(
    openapi_url: Seq<char>,
    host: Option<Seq<char>>,
    moved: Option<Seq<char>>,
) -> Seq<char> {
    if host == Some(LOCAL_HOST@) {
        match moved {
            Some(moved) => moved,
            None => openapi_url,
        }
    } else {
        openapi_url
    }
}

/// The address from which the document at `openapi_url` is fetched, from the
/// host of that URL and from the URL with its host moved: see
/// [`address_to_fetch`].
pub fn address_of(openapi_url: &str, host: Option<String>, moved: Option<String>) -> (address: String)
    ensures
        address@ == address_to_fetch(openapi_url@, text_view(host), text_view(moved)),
{
    let is_local = match host {
        Some(host) => same_text(host.as_str(), LOCAL_HOST),
        None => false,
    };
    if is_local {
        match moved {
            Some(moved) => moved,
            None => String::from_str(openapi_url),
        }
    } else {
        String::from_str(openapi_url)
    }
}

/// The address from which the document at `openapi_url` is fetched.
pub fn fetch_address(openapi_url: &str) -> (address: String)
    ensures
        address@ == address_to_fetch(
            openapi_url@,
            url_host(openapi_url@),
            url_with_host(openapi_url@, HOST_FROM_CONTAINER@),
        ),
{
    let host = host_of(openapi_url);
    let moved = with_host(openapi_url, HOST_FROM_CONTAINER);
    address_of(openapi_url, host, moved)
}

/// The endpoints that a fetched document declares, from what it declares as
/// JSON and as YAML: it is taken as JSON, and as YAML where it is refused as
/// bad syntax.
pub open spec fn fetched_endpoints(
    as_json: Result<Seq<EndpointRecord>, ErrorView>,
    as_yaml: Result<Seq<EndpointRecord>, ErrorView>,
) -> Result<Seq<EndpointRecord>, ErrorView> {
    match as_json {
        Err(ErrorView::InvalidParseSyntax) => as_yaml,
        _ => as_json,
    }
}

/// The endpoints that the fetched document `openapi_spec` declares for
/// `runtime`.
pub fn parse_fetched_openapi(openapi_spec: &str, runtime: Arc<Runtime>) -> (parsed: Result<
    Vec<EndpointConfiguration>,
    Error,
>)
    ensures
        endpoints_view(parsed) == fetched_endpoints(
            json_endpoints(json_parsed(openapi_spec@), runtime@),
            yaml_text_endpoints(openapi_spec@, runtime@),
        ),
{
    match parse_json_doc(openapi_spec, share(&runtime)) {
        Ok(endpoints) => Ok(endpoints),
        Err(Error::InvalidParseSyntax) => parse_yaml_doc(openapi_spec, runtime),
        Err(error) => Err(error),
    }
}

} // verus!
