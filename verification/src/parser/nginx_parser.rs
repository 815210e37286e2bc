//! The endpoints that the access log of the proxy shows.

use std::sync::Arc;
use regex::Regex;
use vstd::prelude::*;
use vstd::string::StringExecFns;
use crate::config::environment::runtime_views;
use crate::config::share;
use crate::config::Runtime;
use crate::config::RuntimeView;
use crate::models::endpoint::EndpointConfiguration;
use crate::models::endpoint::EndpointRecord;
use crate::models::endpoint::EndpointView;
use crate::models::misc::uppercase;
use crate::models::misc::Method;
use crate::utils::error::Error;
use crate::utils::error::ErrorView;
use crate::utils::text::parse_u16;
use crate::utils::text::spelled_u16;

verus! {

/// The pattern of a line of the access log: the time between brackets, the
/// request between quotes, made of a method, a path and the version of the
/// protocol, then the status code and the port.
pub const NGINX_LINE_PATTERN: &'static str = "^(\\[.+\\]) \"(\\w{3, 4}) (/\\S*) HTTP/\\d\\.\\d\" (\\d{3}) (\\d{1, 5})";

/// What the regular expression `pattern` finds in `text`: `None` where
/// `pattern` is no regular expression; else `None` where it does not match,
/// or, for the leftmost match, the text of each of its groups, the whole
/// match being the first, and `None` for a group that took no part.
pub uninterp spec fn regex_captured(pattern: Seq<char>, text: Seq<char>) -> Option<
    Option<Seq<Option<Seq<char>>>>,
>;

/// What `groups` hold, as sequences of characters.
pub open spec fn group_texts(groups: Seq<Option<String>>) -> Seq<Option<Seq<char>>> {
    groups.map_values(
        |group: Option<String>|
            match group {
                Some(text) => Some(text@),
                None => None,
            },
    )
}

/// What `captured` holds, as sequences of characters.
pub open spec fn captured_view(captured: Option<Option<Vec<Option<String>>>>) -> Option<
    Option<Seq<Option<Seq<char>>>>,
> {
    match captured {
        None => None,
        Some(None) => Some(None),
        Some(Some(groups)) => Some(Some(group_texts(groups@))),
    }
}

/// A regular expression of the `regex` crate, compiled: it is carried
/// around, and used through the functions below only.
#[verifier::external_type_specification]
#[verifier::external_body]
pub struct ExRegex(Regex);

/// A pattern for the lines of a log, compiled once and used for each line.
pub struct LinePattern {
    source: String,
    regex: Regex,
}

impl View for LinePattern {
    type V = Seq<char>;

    /// The pattern as it was written.
    closed spec fn view(&self) -> Seq<char> {
        self.source@
    }
}

/// What `groups` hold, if there are any, as sequences of characters.
pub open spec fn found_view(found: Option<Vec<Option<String>>>) -> Option<Seq<Option<Seq<char>>>> {
    match found {
        Some(groups) => Some(group_texts(groups@)),
        None => None,
    }
}

/// Calls `Regex::new`, and keeps what it compiles together with the text of
/// the pattern. The contract only says, by the name [`regex_captured`],
/// whether `pattern` is a regular expression.
#[verifier::external_body]
fn compile(pattern: &str) -> (compiled: Option<LinePattern>)
    ensures
        match compiled {
            Some(compiled) => compiled@ == pattern@ && forall|text: Seq<char>|
                (#[trigger] regex_captured(compiled@, text)) is Some,
            None => forall|text: Seq<char>| (#[trigger] regex_captured(pattern@, text)) is None,
        },
{
    match Regex::new(pattern) {
        Ok(regex) => Some(LinePattern { source: pattern.to_string(), regex }),
        Err(_) => None,
    }
}

/// Calls `Regex::captures`, and `Captures::len`, `Captures::get` and
/// `Match::as_str` on what is found. The contract only gives the outcome its
/// name, [`regex_captured`]: what a pattern matches is not stated here.
#[verifier::external_body]
fn find_groups(pattern: &LinePattern, text: &str) -> (found: Option<Vec<Option<String>>>)
    ensures
        regex_captured(pattern@, text@) == Some(found_view(found)),
{
    let found = match pattern.regex.captures(text) {
        Some(found) => found,
        None => return None,
    };
    let mut groups = Vec::new();
    for index in 0..found.len() {
        groups.push(found.get(index).map(|group| group.as_str().to_string()));
    }
    Some(groups)
}

/// The text of the group at `index`, if there is such a group and it took
/// part in the match.
pub open spec fn group_at(groups: Seq<Option<Seq<char>>>, index: int) -> Option<Seq<char>> {
    if 0 <= index < groups.len() {
        groups[index]
    } else {
        None
    }
}

/// The first position from `from` on at which `runtimes` holds a service
/// with the port `port`, if there is one.
pub open spec fn position_of_port(runtimes: Seq<RuntimeView>, port: u16, from: int) -> Option<int>
    decreases runtimes.len() - from,
{
    if from < 0 || from >= runtimes.len() {
        None
    } else if runtimes[from].port == port {
        Some(from)
    } else {
        position_of_port(runtimes, port, from + 1)
    }
}

/// The endpoint that a line of the access log shows, from what the pattern
/// of such a line found in it.
///
/// A line that the pattern does not match is refused as bad syntax. The
/// status code is read first, then the method, the path and the port; the
/// service is the first with that port.
pub open spec fn line_endpoint(
    captured: Option<Option<Seq<Option<Seq<char>>>>>,
    runtimes: Seq<RuntimeView>,
) -> Result<EndpointRecord, ErrorView> {
    match captured {
        Some(Some(groups)) => match group_at(groups, 4) {
            None => Err(ErrorView::InvalidParseSyntax),
            Some(status) => match spelled_u16(status) {
                None => Err(ErrorView::InvalidParseStatusCode(status)),
                Some(status_code) => match group_at(groups, 2) {
                    None => Err(ErrorView::UnknownInternalError("no method nginx logs"@)),
                    Some(name) => match Method::named(uppercase(name)) {
                        None => Err(ErrorView::UnknownInternalError("invalid method nginx "@ + name)),
                        Some(method) => match group_at(groups, 3) {
                            None => Err(ErrorView::UnknownInternalError("invalid path nginx logs"@)),
                            Some(path) => match group_at(groups, 5) {
                                None => Err(ErrorView::UnknownInternalError("no port number nginx logs"@)),
                                Some(port) => match spelled_u16(port) {
                                    None => Err(ErrorView::UnknownInternalError("invalid port nginx logs"@)),
                                    Some(port) => match position_of_port(runtimes, port, 0) {
                                        None => Err(
                                            ErrorView::UnknownInternalError("unknown port in nginx logs"@),
                                        ),
                                        Some(at) => Ok(
                                            EndpointRecord {
                                                endpoint: EndpointView {
                                                    method,
                                                    path,
                                                    status_code,
                                                    runtime: runtimes[at],
                                                },
                                                is_generated: false,
                                            },
                                        ),
                                    },
                                },
                            },
                        },
                    },
                },
            },
        },
        _ => Err(ErrorView::InvalidParseSyntax),
    }
}

/// What `parsed` says, in views.
pub open spec fn endpoint_result_view(parsed: Result<EndpointConfiguration, Error>) -> Result<
    EndpointRecord,
    ErrorView,
> {
    match parsed {
        Ok(endpoint) => Ok(endpoint.record()),
        Err(error) => Err(error@),
    }
}

/// The first of `runtimes` with the port `port`.
pub fn find_runtime_by_port(runtimes: &Vec<Arc<Runtime>>, port: u16) -> (found: Result<Arc<Runtime>, Error>)
    ensures
        match found {
            Ok(runtime) => position_of_port(runtime_views(runtimes@), port, 0) matches Some(at) && 0 <= at
                < runtimes@.len() && runtime == runtimes@[at],
            Err(error) => position_of_port(runtime_views(runtimes@), port, 0) is None && error@
                == ErrorView::UnknownInternalError("unknown port in nginx logs"@),
        },
{
    let ghost all = runtime_views(runtimes@);
    let mut k: usize = 0;
    while k < runtimes.len()
        invariant
            k <= runtimes@.len(),
            all == runtime_views(runtimes@),
            position_of_port(all, port, k as int) == position_of_port(all, port, 0),
        decreases runtimes@.len() - k,
    {
        assert(all[k as int] == runtimes@[k as int]@);
        if runtimes[k].port == port {
            return Ok(share(&runtimes[k]));
        }
        k += 1;
    }
    Err(Error::UnknownInternalError(String::from_str("unknown port in nginx logs")))
}

/// The text of the group at `index`.
fn group<'a>(groups: &'a Vec<Option<String>>, index: usize) -> (text: Option<&'a str>)
    ensures
        match text {
            Some(text) => group_at(group_texts(groups@), index as int) == Some(text@),
            None => group_at(group_texts(groups@), index as int) is None,
        },
{
    if index < groups.len() {
        match &groups[index] {
            Some(text) => Some(text.as_str()),
            None => None,
        }
    } else {
        None
    }
}

/// The endpoint that a line of the access log shows, from what the pattern
/// of such a line found in it: see [`line_endpoint`].
pub fn endpoint_of_captures(runtimes: &Vec<Arc<Runtime>>, captured: &Option<Option<Vec<Option<String>>>>) -> (parsed:
    Result<EndpointConfiguration, Error>)
    ensures
        endpoint_result_view(parsed) == line_endpoint(captured_view(*captured), runtime_views(runtimes@)),
{
    let groups = match captured {
        Some(Some(groups)) => groups,
        _ => {
            return Err(Error::InvalidParseSyntax);
        },
    };
    let status = match group(groups, 4) {
        Some(status_string) => match parse_u16(status_string) {
            Some(status) => status,
            None => {
                return Err(Error::InvalidParseStatusCode(String::from_str(status_string)));
            },
        },
        None => {
            return Err(Error::InvalidParseSyntax);
        },
    };
    let method = match group(groups, 2) {
        Some(method_string) => match Method::from_str(method_string) {
            Some(method) => method,
            None => {
                return Err(
                    Error::UnknownInternalError(String::from_str("invalid method nginx ").concat(method_string)),
                );
            },
        },
        None => {
            return Err(Error::UnknownInternalError(String::from_str("no method nginx logs")));
        },
    };
    let path = match group(groups, 3) {
        Some(path) => path,
        None => {
            return Err(Error::UnknownInternalError(String::from_str("invalid path nginx logs")));
        },
    };
    let port = match group(groups, 5) {
        Some(port_string) => match parse_u16(port_string) {
            Some(port) => port,
            None => {
                return Err(Error::UnknownInternalError(String::from_str("invalid port nginx logs")));
            },
        },
        None => {
            return Err(Error::UnknownInternalError(String::from_str("no port number nginx logs")));
        },
    };
    let runtime = match find_runtime_by_port(runtimes, port) {
        Ok(runtime) => runtime,
        Err(error) => {
            return Err(error);
        },
    };
    proof {
        let at = position_of_port(runtime_views(runtimes@), port, 0)->Some_0;
        assert(runtime_views(runtimes@)[at] == runtimes@[at]@);
    }
    EndpointConfiguration::new(method, path, status, runtime, false)
}

impl LinePattern {
    /// The pattern of a line of the access log, compiled; `None` where it is
    /// no regular expression.
    pub fn nginx() -> (compiled: Option<LinePattern>)
        ensures
            match compiled {
                Some(compiled) => compiled@ == NGINX_LINE_PATTERN@,
                None => forall|text: Seq<char>| (#[trigger] regex_captured(NGINX_LINE_PATTERN@, text)) is None,
            },
    {
        compile(NGINX_LINE_PATTERN)
    }

    /// The endpoint that the line `line` of a log shows, among the services
    /// `runtimes`.
    pub fn parse_line(&self, runtimes: &Vec<Arc<Runtime>>, line: &str) -> (parsed: Result<
        EndpointConfiguration,
        Error,
    >)
        ensures
            endpoint_result_view(parsed) == line_endpoint(
                regex_captured(self@, line@),
                runtime_views(runtimes@),
            ),
    {
        let captured = Some(find_groups(self, line));
        endpoint_of_captures(runtimes, &captured)
    }
}

/// The endpoint that the line `line` of the access log shows, among the
/// services `runtimes`. The pattern is compiled for the one line:
/// [`LinePattern`] serves for many.
pub fn parse_nginx_line(runtimes: &Vec<Arc<Runtime>>, line: &str) -> (parsed: Result<EndpointConfiguration, Error>)
    ensures
        endpoint_result_view(parsed) == line_endpoint(
            regex_captured(NGINX_LINE_PATTERN@, line@),
            runtime_views(runtimes@),
        ),
{
    match LinePattern::nginx() {
        Some(pattern) => pattern.parse_line(runtimes, line),
        None => Err(Error::InvalidParseSyntax),
    }
}

} // verus!
