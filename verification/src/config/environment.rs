//! The configuration, as the environment gives it: flags, the services under
//! test and the groupings, each read from the text of a variable.

use std::collections::HashSet;
use std::sync::Arc;
use vstd::hash_map::StringHashMap;
use vstd::prelude::*;
use vstd::string::StringExecFns;
use vstd::string::StringSliceAdditionalSpecFns;
use vstd::utf8::decode_utf8;
use vstd::utf8::encode_utf8;
use vstd::utf8::is_char_boundary;
use url::Url;
use crate::config::CoveAPIConfig;
use crate::config::ConfigView;
use crate::config::OpenapiSource;
use crate::config::OpenapiSourceView;
use crate::config::Runtime;
use crate::config::RuntimeView;
use crate::evaluator::compare::grouping_views;
use crate::models::endpoint::OpenapiPath;
use crate::models::grouping::Grouping;
use crate::models::grouping::GroupingView;
use crate::models::misc::uppercase;
use crate::models::misc::Method;
use crate::utils::error::Error;
use crate::utils::error::ErrorView;
use crate::utils::text::parse_u16;
use crate::utils::text::pieces;
use crate::utils::text::replace_all;
use crate::utils::text::replaced;
use crate::utils::text::same_text;
use crate::utils::text::spelled_u16;
use crate::utils::text::split;
use crate::utils::text::texts;
use crate::utils::text::trim;
use crate::utils::text::trimmed;

verus! {

/// The variable with the URL that requests to the service are passed on to.
pub const ENV_VAR_APP_BASE_URL: &'static str = "COVEAPI_APP_BASE_URL";

/// The flag that asks for more to be printed.
pub const ENV_VAR_DEBUG: &'static str = "COVEAPI_DEBUG";

/// The variable with the source of the OpenAPI document: a path or a URL.
pub const ENV_VAR_OPENAPI_SOURCE: &'static str = "COVEAPI_OPENAPI_SOURCE";

/// The flag that asks for the status code 403 where security is required.
pub const ENV_VAR_ACCOUNT_FOR_FORBIDDEN: &'static str = "COVEAPI_ACCOUNT_FOR_FORBIDDEN";

/// The flag that asks for the status code 401 where security is required.
pub const ENV_VAR_ACCOUNT_FOR_UNAUTORIZED: &'static str = "COVEAPI_ACCOUNT_FOR_UNAUTORIZED";

/// The variable with the coverage that the tests have to reach.
pub const ENV_VAR_TEST_COVERAGE: &'static str = "COVEAPI_TEST_COVERAGE";

/// The variable with the port that the proxy listens on.
pub const ENV_VAR_PORT: &'static str = "COVEAPI_PORT";

/// The variable that describes several services, one on each line.
pub const ENV_VAR_MAPPING: &'static str = "COVEAPI_MAPPING";

/// The flag that says that a merge is evaluated.
pub const ENV_VAR_IS_MERGE: &'static str = "COVEAPI_IS_MERGE";

/// The flag that asks to account for what a merge adds only.
pub const ENV_VAR_ONLY_ACCOUNT_MERGE: &'static str = "COVEAPI_ONLY_ACCOUNT_MERGE";

/// The variable that describes the groupings, one on each line.
pub const ENV_VAR_GROUPINGS: &'static str = "COVEAPI_GROUPINGS";

/// The port that the proxy listens on where none is given.
pub const DEFAULT_PORT: u16 = 13750;

/// What stands between two entries of a list.
pub const LIST_SEPERATOR: &'static str = "COVEAPI_LINE_SEPERATOR";

/// What ends a field of an entry.
pub const MAPPING_SUBDELIMITER: &'static str = ";";

/// Whether `text` switches a flag on: it does unless it is empty, `0`,
/// `false` or `nope`.
pub open spec fn switches_on(text: Seq<char>) -> bool {
    text != "0"@ && text.len() != 0 && text != "false"@ && text != "nope"@
}

/// Whether the environment `env` gives the variable `key` a value that is
/// not empty.
pub open spec fn is_given(env: Map<Seq<char>, String>, key: Seq<char>) -> bool {
    env.contains_key(key) && env[key]@.len() > 0
}

/// Whether the environment `env` switches the flag `key` on.
pub open spec fn flag(env: Map<Seq<char>, String>, key: Seq<char>) -> bool {
    env.contains_key(key) && switches_on(env[key]@)
}

/// Whether `bool_str` switches a flag on.
pub fn parse_bool(bool_str: &str) -> (on: bool)
    ensures
        on == switches_on(bool_str@),
{
    !same_text(bool_str, "0") && !bool_str.is_empty() && !same_text(bool_str, "false") && !same_text(
        bool_str,
        "nope",
    )
}

/// Whether the environment gives the variable `key` a value that is not
/// empty.
pub fn key_exists_and_is_not_empty(key: &str, env_vars: &StringHashMap<String>) -> (given: bool)
    ensures
        given == is_given(env_vars@, key@),
{
    match env_vars.get(key) {
        Some(content) => !content.as_str().is_empty(),
        None => false,
    }
}

/// Whether the environment switches the flag `key` on.
pub fn get_bool_env_var(key: &str, env_vars: &StringHashMap<String>) -> (on: bool)
    ensures
        on == flag(env_vars@, key@),
{
    match env_vars.get(key) {
        Some(bool_var) => parse_bool(bool_var.as_str()),
        None => false,
    }
}

/// Whether the bytes of `text` from position `from` up to position `to` are
/// a text of their own: the positions are in order and within `text`, and
/// neither of them lies within a character.
pub open spec fn sliceable(text: Seq<char>, from: int, to: int) -> bool {
    &&& 0 <= from <= to <= encode_utf8(text).len()
    &&& is_char_boundary(encode_utf8(text), from)
    &&& is_char_boundary(encode_utf8(text), to)
}

/// The text that the bytes of `text` from position `from` up to position `to`
/// spell.
pub open spec fn slice_of(text: Seq<char>, from: int, to: int) -> Seq<char> {
    decode_utf8(encode_utf8(text).subrange(from, to))
}

/// Calls `str::get` with the range from `from` up to `to`: the part of `text`
/// between the two byte positions, and `None` where the range does not lie
/// within `text` or an end of it lies within a character.
#[verifier::external_body]
fn slice(text: &str, from: usize, to: usize) -> (part: Option<&str>)
    ensures
        part is Some <==> sliceable(text@, from as int, to as int),
        part matches Some(inner) ==> inner@ == slice_of(text@, from as int, to as int),
{
    text.get(from..to)
}

/// The character at the byte position `at` of `text`, as a text, where it is
/// a character of one byte.
pub open spec fn unit_at(text: Seq<char>, at: int) -> Option<Seq<char>> {
    if sliceable(text, at, at + 1) {
        Some(slice_of(text, at, at + 1))
    } else {
        None
    }
}

/// The byte position at which the field that is read from position `at` on
/// ends: that of the first `;` that no `\` stands directly before, or of the
/// first byte that is no character by itself. `escaped` says whether a `\`
/// stands directly before `at`.
pub open spec fn field_end(text: Seq<char>, at: int, escaped: bool) -> int
    decreases
        (if at <= encode_utf8(text).len() {
            2 * (encode_utf8(text).len() - at) + 2
        } else {
            0
        }) + (if escaped {
            1int
        } else {
            0int
        }),
{
    let unit = unit_at(text, at);
    if escaped || (unit is Some && unit != Some(MAPPING_SUBDELIMITER@)) {
        field_end(text, at + 1, unit == Some("\\"@))
    } else {
        at
    }
}

/// The field of `text` that begins at the byte position `index`, and the
/// position after the `;` that ends it; `None` where no `;` ends it within
/// `text`, or the field is no text of its own.
pub open spec fn field(text: Seq<char>, index: int) -> Option<(Seq<char>, int)> {
    let end = field_end(text, index, false);
    if end < encode_utf8(text).len() && sliceable(text, index, end) {
        Some((slice_of(text, index, end), end + 1))
    } else {
        None
    }
}

/// Reads the field of `base` that begins at the byte position `index`.
pub fn parse_untill_mapping_subdelimiter(index: usize, base: &str) -> (parsed: Result<(&str, usize), Error>)
    ensures
        match parsed {
            Ok((subpart, next)) => field(base@, index as int) == Some((subpart@, next as int)),
            Err(error) => field(base@, index as int) is None && error@
                == ErrorView::MappingMissingSemicolon(base@),
        },
{
    let length = base.as_bytes().len();
    let mut final_index = index;
    let mut is_escaped = false;
    loop
        invariant
            length == encode_utf8(base@).len(),
            is_escaped ==> final_index <= length,
            field_end(base@, final_index as int, is_escaped) == field_end(base@, index as int, false),
        ensures
            final_index == field_end(base@, index as int, false),
        decreases
            (if final_index <= length {
                2 * (length - final_index) + 2
            } else {
                0
            }) + (if is_escaped {
                1int
            } else {
                0int
            }),
    {
        let unit = if final_index < length {
            slice(base, final_index, final_index + 1)
        } else {
            None
        };
        let goes_on = match unit {
            Some(character) => is_escaped || !same_text(character, MAPPING_SUBDELIMITER),
            None => is_escaped,
        };
        if !goes_on {
            break ;
        }
        if final_index >= length {
            proof {
                assert(unit_at(base@, final_index as int) is None);
                assert(unit_at(base@, final_index + 1) is None);
                assert(field_end(base@, final_index + 1, false) == final_index + 1);
                assert(field_end(base@, final_index as int, true) == final_index + 1);
            }
            return Err(Error::MappingMissingSemicolon(String::from_str(base)));
        }
        is_escaped = match unit {
            Some(character) => same_text(character, "\\"),
            None => false,
        };
        final_index += 1;
    }
    if final_index >= length {
        return Err(Error::MappingMissingSemicolon(String::from_str(base)));
    }
    match slice(base, index, final_index) {
        Some(subpart) => Ok((subpart, final_index + 1)),
        None => Err(Error::MappingMissingSemicolon(String::from_str(base))),
    }
}

/// `base` with each `\;` replaced by `;`.
pub fn replace_escaped_sequences(base: &str) -> (plain: String)
    ensures
        plain@ == replaced(base@, "\\;"@, ";"@),
{
    replace_all(base, "\\;", ";")
}

/// What `Url::parse` makes of `text`: the normalised spelling of the URL, or
/// the message with which it refuses `text`.
pub uninterp spec fn url_parsed(text: Seq<char>) -> Result<Seq<char>, Seq<char>>;

/// Calls `Url::from_str`, and `Url::as_str` on what it accepts. The contract
/// only gives the outcome its name, [`url_parsed`]: which texts are URLs, and
/// how they are normalised, is not stated here.
#[verifier::external_body]
fn parse_url(text: &str) -> (parsed: Result<String, String>)
    ensures
        match parsed {
            Ok(url) => url_parsed(text@) == Ok::<Seq<char>, Seq<char>>(url@),
            Err(message) => url_parsed(text@) == Err::<Seq<char>, Seq<char>>(message@),
        },
{
    match <Url as std::str::FromStr>::from_str(text) {
        Ok(url) => Ok(url.as_str().to_string()),
        Err(error) => Err(error.to_string()),
    }
}

/// The service that is described by the outcome `openapi_url` of reading its
/// source as a URL, by that source as a path, by the outcome `app_base_url`
/// of reading its URL, and by the spelling of its port, if one is given.
///
/// A source that is no URL is a path. A URL of the service that is none is
/// refused with the message that came with it, and after it a port that is
/// no number of sixteen bits, with its spelling.
pub open spec fn runtime_built(
    openapi_url: Result<Seq<char>, Seq<char>>,
    openapi_path: Seq<char>,
    app_base_url: Result<Seq<char>, Seq<char>>,
    port: Option<Seq<char>>,
) -> Result<RuntimeView, ErrorView> {
    let openapi_source = match openapi_url {
        Ok(url) => OpenapiSourceView::Url(url),
        Err(_) => OpenapiSourceView::Path(openapi_path),
    };
    match app_base_url {
        Err(message) => Err(ErrorView::InvalidApplicationURL(message)),
        Ok(app_base_url) => match port {
            None => Ok(RuntimeView { openapi_source, app_base_url, port: DEFAULT_PORT }),
            Some(spelling) => match spelled_u16(trimmed(spelling)) {
                Some(port) => Ok(RuntimeView { openapi_source, app_base_url, port }),
                None => Err(ErrorView::InvalidPortNumber(spelling)),
            },
        },
    }
}

/// The service that the three texts describe, each taken without the white
/// space around it.
pub open spec fn runtime_spelled(
    openapi_source: Seq<char>,
    app_base_url: Seq<char>,
    port: Option<Seq<char>>,
) -> Result<RuntimeView, ErrorView> {
    runtime_built(
        url_parsed(trimmed(openapi_source)),
        trimmed(openapi_source),
        url_parsed(trimmed(app_base_url)),
        port,
    )
}

/// What `parsed` says, in sequences of characters.
pub open spec fn outcome_view(parsed: Result<String, String>) -> Result<Seq<char>, Seq<char>> {
    match parsed {
        Ok(text) => Ok(text@),
        Err(text) => Err(text@),
    }
}

/// What `text` says, if there is one, as a sequence of characters.
pub open spec fn option_view(text: Option<&str>) -> Option<Seq<char>> {
    match text {
        Some(text) => Some(text@),
        None => None,
    }
}

/// What `built` says, in views.
pub open spec fn runtime_result_view(built: Result<Arc<Runtime>, Error>) -> Result<RuntimeView, ErrorView> {
    match built {
        Ok(runtime) => Ok(runtime@),
        Err(error) => Err(error@),
    }
}

/// Builds the service from what was made of its three texts: see
/// [`runtime_built`].
pub fn build_runtime(
    openapi_url: Result<String, String>,
    openapi_path: &str,
    app_base_url: Result<String, String>,
    port_str: Option<&str>,
) -> (built: Result<Arc<Runtime>, Error>)
    ensures
        runtime_result_view(built) == runtime_built(
            outcome_view(openapi_url),
            openapi_path@,
            outcome_view(app_base_url),
            option_view(port_str),
        ),
{
    let openapi_source = match openapi_url {
        Ok(url) => OpenapiSource::Url(url),
        Err(_) => OpenapiSource::Path(String::from_str(openapi_path)),
    };
    let app_base_url = match app_base_url {
        Ok(app_base_url) => app_base_url,
        Err(message) => {
            return Err(Error::InvalidApplicationURL(message));
        },
    };
    let port = match port_str {
        Some(port_str) => match parse_u16(trim(port_str)) {
            Some(port) => port,
            None => {
                return Err(Error::InvalidPortNumber(String::from_str(port_str)));
            },
        },
        None => DEFAULT_PORT,
    };
    Ok(Arc::new(Runtime { openapi_source, app_base_url, port }))
}

/// Reads the service that the three texts describe: the source of its
/// document, its URL and, if it is given, its port.
pub fn parse_runtime(openapi_source_str: &str, app_base_url_str: &str, port_str: Option<&str>) -> (parsed: Result<
    Arc<Runtime>,
    Error,
>)
    ensures
        runtime_result_view(parsed) == runtime_spelled(
            openapi_source_str@,
            app_base_url_str@,
            option_view(port_str),
        ),
{
    let openapi_path = trim(openapi_source_str);
    let openapi_url = parse_url(openapi_path);
    let app_base_url = parse_url(trim(app_base_url_str));
    build_runtime(openapi_url, openapi_path, app_base_url, port_str)
}

/// The views of `runtimes`, in their order.
pub open spec fn runtime_views(runtimes: Seq<Arc<Runtime>>) -> Seq<RuntimeView> {
    runtimes.map_values(|runtime: Arc<Runtime>| runtime@)
}

/// Whether no two of `runtimes` have the same port.
pub open spec fn ports_differ(runtimes: Seq<RuntimeView>) -> bool {
    forall|i: int, j: int| 0 <= i < j < runtimes.len() ==> runtimes[i].port != runtimes[j].port
}

/// Whether no two of `runtimes` have the same port.
pub fn check_runtime_compatability(runtimes: &Vec<Arc<Runtime>>) -> (compatible: bool)
    ensures
        compatible == ports_differ(runtime_views(runtimes@)),
{
    broadcast use vstd::std_specs::hash::group_hash_axioms;

    let ghost all = runtime_views(runtimes@);
    let mut ports: HashSet<u16> = HashSet::new();
    let mut k: usize = 0;
    while k < runtimes.len()
        invariant
            k <= runtimes@.len(),
            all == runtime_views(runtimes@),
            forall|a: int, b: int| 0 <= a < b < k ==> all[a].port != all[b].port,
            forall|port: u16| ports@.contains(port) <==> exists|a: int| 0 <= a < k && (#[trigger] all[a]).port == port,
        decreases runtimes@.len() - k,
    {
        let port = runtimes[k].port;
        assert(all[k as int].port == port);
        let ghost before = ports@;
        if !ports.insert(port) {
            proof {
                let a = choose|a: int| 0 <= a < k && (#[trigger] all[a]).port == port;
                assert(all[a].port == all[k as int].port);
            }
            return false;
        }
        proof {
            assert forall|other: u16| ports@.contains(other) <==> exists|a: int|
                0 <= a < k + 1 && (#[trigger] all[a]).port == other by {
                if before.contains(other) {
                    let a = choose|a: int| 0 <= a < k && (#[trigger] all[a]).port == other;
                    assert(all[a].port == other);
                }
                if exists|a: int| 0 <= a < k + 1 && (#[trigger] all[a]).port == other {
                    let a = choose|a: int| 0 <= a < k + 1 && (#[trigger] all[a]).port == other;
                    if a < k {
                        assert(all[a].port == other);
                    }
                }
            }
        }
        k += 1;
    }
    true
}

/// Whether `line` holds white space only.
pub open spec fn is_blank(line: Seq<char>) -> bool {
    trimmed(line).len() == 0
}

/// `text` with each `\;` replaced by `;`.
pub open spec fn unescaped(text: Seq<char>) -> Seq<char> {
    replaced(text, "\\;"@, ";"@)
}

/// The service that `line` describes: its URL, the source of its document
/// and its port, each ended by a `;`.
pub open spec fn runtime_of_line(line: Seq<char>) -> Result<RuntimeView, ErrorView> {
    match field(line, 0) {
        None => Err(ErrorView::MappingMissingSemicolon(line)),
        Some((app_base_url, second)) => match field(line, second) {
            None => Err(ErrorView::MappingMissingSemicolon(line)),
            Some((openapi_source, third)) => match field(line, third) {
                None => Err(ErrorView::MappingMissingSemicolon(line)),
                Some((port, _)) => runtime_spelled(
                    unescaped(openapi_source),
                    unescaped(app_base_url),
                    Some(unescaped(port)),
                ),
            },
        },
    }
}

/// The services that the first `n` of `lines` describe, in their order, or
/// the first refusal; blank lines describe nothing.
pub open spec fn runtimes_of_lines(lines: Seq<Seq<char>>, n: int) -> Result<Seq<RuntimeView>, ErrorView>
    decreases n,
{
    if n <= 0 {
        Ok(Seq::empty())
    } else {
        match runtimes_of_lines(lines, n - 1) {
            Err(error) => Err(error),
            Ok(before) => if is_blank(lines[n - 1]) {
                Ok(before)
            } else {
                match runtime_of_line(lines[n - 1]) {
                    Ok(runtime) => Ok(before.push(runtime)),
                    Err(error) => Err(error),
                }
            },
        }
    }
}

/// The services that the mapping `text` describes, one on each line: at
/// least one, and no two with the same port.
pub open spec fn mapping_spelled(text: Seq<char>) -> Result<Seq<RuntimeView>, ErrorView> {
    let lines = pieces(text, LIST_SEPERATOR@);
    match runtimes_of_lines(lines, lines.len() as int) {
        Err(error) => Err(error),
        Ok(runtimes) => if runtimes.len() == 0 {
            Err(ErrorView::MissingMapping)
        } else if !ports_differ(runtimes) {
            Err(ErrorView::MappingDuplicatePorts)
        } else {
            Ok(runtimes)
        },
    }
}

/// A refusal among the first lines is the refusal of all.
proof fn lemma_runtime_refusal_stays(lines: Seq<Seq<char>>, k: int, n: int)
    requires
        0 <= k <= n,
        runtimes_of_lines(lines, k) is Err,
    ensures
        runtimes_of_lines(lines, n) == runtimes_of_lines(lines, k),
    decreases n - k,
{
    if k < n {
        lemma_runtime_refusal_stays(lines, k, n - 1);
    }
}

/// Reads the service that `line` describes.
pub fn parse_mapping_line(line: &str) -> (parsed: Result<Arc<Runtime>, Error>)
    ensures
        runtime_result_view(parsed) == runtime_of_line(line@),
{
    let (app_base_url_str, index) = match parse_untill_mapping_subdelimiter(0, line) {
        Ok(found) => found,
        Err(error) => {
            return Err(error);
        },
    };
    let (openapi_source_str, index) = match parse_untill_mapping_subdelimiter(index, line) {
        Ok(found) => found,
        Err(error) => {
            return Err(error);
        },
    };
    let (port_str, _) = match parse_untill_mapping_subdelimiter(index, line) {
        Ok(found) => found,
        Err(error) => {
            return Err(error);
        },
    };
    let app_base_url_str = replace_escaped_sequences(app_base_url_str);
    let openapi_source_str = replace_escaped_sequences(openapi_source_str);
    let port_str = replace_escaped_sequences(port_str);
    parse_runtime(openapi_source_str.as_str(), app_base_url_str.as_str(), Some(port_str.as_str()))
}

/// Reads the services that the mapping `mapping_str` describes.
pub fn parse_complex_mapping(mapping_str: &str) -> (parsed: Result<Vec<Arc<Runtime>>, Error>)
    ensures
        match parsed {
            Ok(runtimes) => mapping_spelled(mapping_str@) == Ok::<Seq<RuntimeView>, ErrorView>(
                runtime_views(runtimes@),
            ),
            Err(error) => mapping_spelled(mapping_str@) == Err::<Seq<RuntimeView>, ErrorView>(error@),
        },
{
    let lines = split(mapping_str, LIST_SEPERATOR);
    let ghost all = texts(lines@);
    let mut runtimes: Vec<Arc<Runtime>> = Vec::new();
    assert(runtime_views(runtimes@) =~= Seq::empty());
    let mut i: usize = 0;
    while i < lines.len()
        invariant
            i <= lines@.len(),
            all == texts(lines@),
            all == pieces(mapping_str@, LIST_SEPERATOR@),
            runtimes_of_lines(all, i as int) == Ok::<Seq<RuntimeView>, ErrorView>(runtime_views(runtimes@)),
        decreases lines@.len() - i,
    {
        let line = lines[i].as_str();
        assert(all[i as int] == line@);
        if !trim(line).is_empty() {
            match parse_mapping_line(line) {
                Ok(runtime) => {
                    let ghost before = runtime_views(runtimes@);
                    runtimes.push(runtime);
                    assert(runtime_views(runtimes@) =~= before.push(runtime@));
                },
                Err(error) => {
                    proof {
                        lemma_runtime_refusal_stays(all, i + 1, all.len() as int);
                    }
                    return Err(error);
                },
            }
        }
        i += 1;
    }
    if runtimes.len() == 0 {
        return Err(Error::MissingMapping);
    }
    if !check_runtime_compatability(&runtimes) {
        return Err(Error::MappingDuplicatePorts);
    }
    Ok(runtimes)
}

/// The methods that the first `n` of `spellings` name, each taken without
/// the white space around it and in capitals or not; or the first spelling
/// that names none.
pub open spec fn methods_spelled(spellings: Seq<Seq<char>>, n: int) -> Result<Seq<Method>, Seq<char>>
    decreases n,
{
    if n <= 0 {
        Ok(Seq::empty())
    } else {
        match methods_spelled(spellings, n - 1) {
            Err(spelling) => Err(spelling),
            Ok(before) => match Method::named(uppercase(trimmed(spellings[n - 1]))) {
                Some(method) => Ok(before.push(method)),
                None => Err(spellings[n - 1]),
            },
        }
    }
}

/// The status codes that the first `n` of `spellings` spell, each taken
/// without the white space around it; or the first spelling that spells
/// none.
pub open spec fn codes_spelled(spellings: Seq<Seq<char>>, n: int) -> Result<Seq<u16>, Seq<char>>
    decreases n,
{
    if n <= 0 {
        Ok(Seq::empty())
    } else {
        match codes_spelled(spellings, n - 1) {
            Err(spelling) => Err(spelling),
            Ok(before) => match spelled_u16(trimmed(spellings[n - 1])) {
                Some(code) => Ok(before.push(code)),
                None => Err(spellings[n - 1]),
            },
        }
    }
}

/// The grouping that the four texts describe: a path, methods between
/// commas, status codes between commas, and whether it is an ignore group.
/// A method that is none is refused first, then a status code that is none.
pub open spec fn grouping_spelled(
    path: Seq<char>,
    methods: Seq<char>,
    status: Seq<char>,
    is_ignore_group: Seq<char>,
) -> Result<GroupingView, ErrorView> {
    let method_spellings = pieces(methods, ","@);
    let code_spellings = pieces(status, ","@);
    match methods_spelled(method_spellings, method_spellings.len() as int) {
        Err(spelling) => Err(ErrorView::InvalidMethodString(spelling)),
        Ok(methods) => match codes_spelled(code_spellings, code_spellings.len() as int) {
            Err(spelling) => Err(ErrorView::InvalidStatusCode(spelling)),
            Ok(status) => Ok(
                GroupingView {
                    methods,
                    status,
                    path: trimmed(path),
                    is_ignore_group: switches_on(trimmed(is_ignore_group)),
                },
            ),
        },
    }
}

/// A spelling among the first that names no method is the refusal of all.
proof fn lemma_method_refusal_stays(spellings: Seq<Seq<char>>, k: int, n: int)
    requires
        0 <= k <= n,
        methods_spelled(spellings, k) is Err,
    ensures
        methods_spelled(spellings, n) == methods_spelled(spellings, k),
    decreases n - k,
{
    if k < n {
        lemma_method_refusal_stays(spellings, k, n - 1);
    }
}

/// A spelling among the first that spells no status code is the refusal of
/// all.
proof fn lemma_code_refusal_stays(spellings: Seq<Seq<char>>, k: int, n: int)
    requires
        0 <= k <= n,
        codes_spelled(spellings, k) is Err,
    ensures
        codes_spelled(spellings, n) == codes_spelled(spellings, k),
    decreases n - k,
{
    if k < n {
        lemma_code_refusal_stays(spellings, k, n - 1);
    }
}

/// What `parsed` says, in views.
pub open spec fn grouping_result_view(parsed: Result<Grouping, Error>) -> Result<GroupingView, ErrorView> {
    match parsed {
        Ok(grouping) => Ok(grouping@),
        Err(error) => Err(error@),
    }
}

/// Reads the grouping that the four texts describe.
pub fn parse_grouping_strings(
    path_str: &str,
    methods_str: &str,
    status_str: &str,
    is_ignore_group_str: &str,
) -> (parsed: Result<Grouping, Error>)
    ensures
        grouping_result_view(parsed) == grouping_spelled(
            path_str@,
            methods_str@,
            status_str@,
            is_ignore_group_str@,
        ),
{
    let path = match OpenapiPath::from_str(trim(path_str)) {
        Ok(path) => path,
        Err(error) => {
            return Err(error);
        },
    };
    let method_strs = split(methods_str, ",");
    let ghost method_spellings = texts(method_strs@);
    let mut methods: Vec<Method> = Vec::new();
    let mut i: usize = 0;
    while i < method_strs.len()
        invariant
            i <= method_strs@.len(),
            method_spellings == texts(method_strs@),
            method_spellings == pieces(methods_str@, ","@),
            methods_spelled(method_spellings, i as int) == Ok::<Seq<Method>, Seq<char>>(methods@),
        decreases method_strs@.len() - i,
    {
        let method_str = method_strs[i].as_str();
        assert(method_spellings[i as int] == method_str@);
        match Method::from_str(trim(method_str)) {
            Some(method) => {
                methods.push(method);
            },
            None => {
                proof {
                    lemma_method_refusal_stays(method_spellings, i + 1, method_spellings.len() as int);
                }
                return Err(Error::InvalidMethodString(String::from_str(method_str)));
            },
        }
        i += 1;
    }
    let status_strs = split(status_str, ",");
    let ghost code_spellings = texts(status_strs@);
    let mut status: Vec<u16> = Vec::new();
    let mut j: usize = 0;
    while j < status_strs.len()
        invariant
            j <= status_strs@.len(),
            code_spellings == texts(status_strs@),
            code_spellings == pieces(status_str@, ","@),
            method_spellings == pieces(methods_str@, ","@),
            methods_spelled(method_spellings, method_spellings.len() as int) == Ok::<Seq<Method>, Seq<char>>(
                methods@,
            ),
            codes_spelled(code_spellings, j as int) == Ok::<Seq<u16>, Seq<char>>(status@),
        decreases status_strs@.len() - j,
    {
        let single_status_str = status_strs[j].as_str();
        assert(code_spellings[j as int] == single_status_str@);
        match parse_u16(trim(single_status_str)) {
            Some(single_status) => {
                status.push(single_status);
            },
            None => {
                proof {
                    lemma_code_refusal_stays(code_spellings, j + 1, code_spellings.len() as int);
                }
                return Err(Error::InvalidStatusCode(String::from_str(single_status_str)));
            },
        }
        j += 1;
    }
    let is_ignore_group = parse_bool(trim(is_ignore_group_str));
    Ok(Grouping::new(methods, status, path, is_ignore_group))
}

/// The grouping that `line` describes: its path, its methods, its status
/// codes and whether it is an ignore group, each ended by a `;`.
pub open spec fn grouping_of_line(line: Seq<char>) -> Result<GroupingView, ErrorView> {
    match field(line, 0) {
        None => Err(ErrorView::MappingMissingSemicolon(line)),
        Some((path, second)) => match field(line, second) {
            None => Err(ErrorView::MappingMissingSemicolon(line)),
            Some((methods, third)) => match field(line, third) {
                None => Err(ErrorView::MappingMissingSemicolon(line)),
                Some((status, fourth)) => match field(line, fourth) {
                    None => Err(ErrorView::MappingMissingSemicolon(line)),
                    Some((is_ignore_group, _)) => grouping_spelled(path, methods, status, is_ignore_group),
                },
            },
        },
    }
}

/// The groupings that the first `n` of `lines` describe, in their order and
/// each once, or the first refusal; blank lines describe nothing.
pub open spec fn groupings_of_lines(lines: Seq<Seq<char>>, n: int) -> Result<Seq<GroupingView>, ErrorView>
    decreases n,
{
    if n <= 0 {
        Ok(Seq::empty())
    } else {
        match groupings_of_lines(lines, n - 1) {
            Err(error) => Err(error),
            Ok(before) => if is_blank(lines[n - 1]) {
                Ok(before)
            } else {
                match grouping_of_line(lines[n - 1]) {
                    Ok(grouping) => if before.contains(grouping) {
                        Ok(before)
                    } else {
                        Ok(before.push(grouping))
                    },
                    Err(error) => Err(error),
                }
            },
        }
    }
}

/// The groupings that `text` describes, one on each line.
pub open spec fn groupings_spelled(text: Seq<char>) -> Result<Seq<GroupingView>, ErrorView> {
    let lines = pieces(text, LIST_SEPERATOR@);
    groupings_of_lines(lines, lines.len() as int)
}

/// A refusal among the first lines is the refusal of all.
proof fn lemma_grouping_refusal_stays(lines: Seq<Seq<char>>, k: int, n: int)
    requires
        0 <= k <= n,
        groupings_of_lines(lines, k) is Err,
    ensures
        groupings_of_lines(lines, n) == groupings_of_lines(lines, k),
    decreases n - k,
{
    if k < n {
        lemma_grouping_refusal_stays(lines, k, n - 1);
    }
}

/// Reads the grouping that `line` describes.
pub fn parse_grouping_line(line: &str) -> (parsed: Result<Grouping, Error>)
    ensures
        grouping_result_view(parsed) == grouping_of_line(line@),
{
    let (path_str, index) = match parse_untill_mapping_subdelimiter(0, line) {
        Ok(found) => found,
        Err(error) => {
            return Err(error);
        },
    };
    let (methods_str, index) = match parse_untill_mapping_subdelimiter(index, line) {
        Ok(found) => found,
        Err(error) => {
            return Err(error);
        },
    };
    let (status_str, index) = match parse_untill_mapping_subdelimiter(index, line) {
        Ok(found) => found,
        Err(error) => {
            return Err(error);
        },
    };
    let (is_ignore_group_str, _) = match parse_untill_mapping_subdelimiter(index, line) {
        Ok(found) => found,
        Err(error) => {
            return Err(error);
        },
    };
    parse_grouping_strings(path_str, methods_str, status_str, is_ignore_group_str)
}

/// Whether `groupings` holds a grouping like `grouping`.
fn holds_grouping(groupings: &Vec<Grouping>, grouping: &Grouping) -> (found: bool)
    ensures
        found == grouping_views(groupings@).contains(grouping@),
{
    let ghost all = grouping_views(groupings@);
    let mut k: usize = 0;
    while k < groupings.len()
        invariant
            k <= groupings@.len(),
            all == grouping_views(groupings@),
            forall|j: int| 0 <= j < k ==> all[j] != grouping@,
        decreases groupings@.len() - k,
    {
        if groupings[k] == *grouping {
            assert(all[k as int] == grouping@);
            return true;
        }
        k += 1;
    }
    false
}

/// Reads the groupings that `grouping_str` describes.
pub fn parse_grouping(grouping_str: &str) -> (parsed: Result<Vec<Grouping>, Error>)
    ensures
        match parsed {
            Ok(groupings) => groupings_spelled(grouping_str@) == Ok::<Seq<GroupingView>, ErrorView>(
                grouping_views(groupings@),
            ),
            Err(error) => groupings_spelled(grouping_str@) == Err::<Seq<GroupingView>, ErrorView>(error@),
        },
{
    let lines = split(grouping_str, LIST_SEPERATOR);
    let ghost all = texts(lines@);
    let mut groupings: Vec<Grouping> = Vec::new();
    assert(grouping_views(groupings@) =~= Seq::empty());
    let mut i: usize = 0;
    while i < lines.len()
        invariant
            i <= lines@.len(),
            all == texts(lines@),
            all == pieces(grouping_str@, LIST_SEPERATOR@),
            groupings_of_lines(all, i as int) == Ok::<Seq<GroupingView>, ErrorView>(
                grouping_views(groupings@),
            ),
        decreases lines@.len() - i,
    {
        let line = lines[i].as_str();
        assert(all[i as int] == line@);
        if !trim(line).is_empty() {
            match parse_grouping_line(line) {
                Ok(grouping) => {
                    if !holds_grouping(&groupings, &grouping) {
                        let ghost before = grouping_views(groupings@);
                        groupings.push(grouping);
                        assert(grouping_views(groupings@) =~= before.push(grouping@));
                    }
                },
                Err(error) => {
                    proof {
                        lemma_grouping_refusal_stays(all, i + 1, all.len() as int);
                    }
                    return Err(error);
                },
            }
        }
        i += 1;
    }
    Ok(groupings)
}

/// The text that the environment `env` gives the variable `key`.
pub open spec fn value_of(env: Map<Seq<char>, String>, key: Seq<char>) -> Seq<char> {
    env[key]@
}

/// The services that the environment `env` describes: those of the mapping
/// where one is given, and else the single service of the source, the URL
/// and, unless it is left out or empty, the port.
pub open spec fn runtimes_given(env: Map<Seq<char>, String>) -> Result<Seq<RuntimeView>, ErrorView> {
    if is_given(env, ENV_VAR_MAPPING@) {
        mapping_spelled(value_of(env, ENV_VAR_MAPPING@))
    } else {
        let port = if is_given(env, ENV_VAR_PORT@) {
            Some(value_of(env, ENV_VAR_PORT@))
        } else {
            None
        };
        match runtime_spelled(
            value_of(env, ENV_VAR_OPENAPI_SOURCE@),
            value_of(env, ENV_VAR_APP_BASE_URL@),
            port,
        ) {
            Ok(runtime) => Ok(seq![runtime]),
            Err(error) => Err(error),
        }
    }
}

/// The groupings that the environment `env` describes: none where the
/// variable is left out.
pub open spec fn groupings_given(env: Map<Seq<char>, String>) -> Result<Seq<GroupingView>, ErrorView> {
    if env.contains_key(ENV_VAR_GROUPINGS@) {
        groupings_spelled(value_of(env, ENV_VAR_GROUPINGS@))
    } else {
        Ok(Seq::empty())
    }
}

/// Whether the environment `env` names the services in one way, and what is
/// wrong where it does not: it gives either a mapping, or a source and a
/// URL, and beside a mapping neither of these nor a port.
pub open spec fn sources_given(env: Map<Seq<char>, String>) -> Result<(), ErrorView> {
    if !is_given(env, ENV_VAR_MAPPING@) && (!is_given(env, ENV_VAR_OPENAPI_SOURCE@) || !is_given(
        env,
        ENV_VAR_APP_BASE_URL@,
    )) {
        Err(ErrorView::MissingConfiguration)
    } else if is_given(env, ENV_VAR_MAPPING@) && (is_given(env, ENV_VAR_PORT@) || is_given(
        env,
        ENV_VAR_OPENAPI_SOURCE@,
    ) || is_given(env, ENV_VAR_APP_BASE_URL@)) {
        Err(ErrorView::ConflictingConfiguration)
    } else {
        Ok(())
    }
}

/// The configuration that the environment `env` describes. What is wrong
/// with the naming of the services is refused first, then a grouping, then a
/// service.
pub open spec fn configuration_given(env: Map<Seq<char>, String>) -> Result<ConfigView, ErrorView> {
    match sources_given(env) {
        Err(error) => Err(error),
        Ok(_) => match groupings_given(env) {
            Err(error) => Err(error),
            Ok(groupings) => match runtimes_given(env) {
                Err(error) => Err(error),
                Ok(runtimes) => Ok(
                    ConfigView {
                        debug: flag(env, ENV_VAR_DEBUG@),
                        security_accounts_for_forbidden: flag(env, ENV_VAR_ACCOUNT_FOR_FORBIDDEN@),
                        security_accounts_for_unautorized: flag(env, ENV_VAR_ACCOUNT_FOR_UNAUTORIZED@),
                        runtimes,
                        is_merge: flag(env, ENV_VAR_IS_MERGE@),
                        only_account_for_merge: flag(env, ENV_VAR_ONLY_ACCOUNT_MERGE@),
                        groupings,
                    },
                ),
            },
        },
    }
}

/// Whether the environment names the services in one way.
pub fn check_sources(env_vars: &StringHashMap<String>) -> (checked: Result<(), Error>)
    ensures
        match checked {
            Ok(_) => sources_given(env_vars@) is Ok,
            Err(error) => sources_given(env_vars@) == Err::<(), ErrorView>(error@),
        },
{
    if !key_exists_and_is_not_empty(ENV_VAR_MAPPING, env_vars) && (!key_exists_and_is_not_empty(
        ENV_VAR_OPENAPI_SOURCE,
        env_vars,
    ) || !key_exists_and_is_not_empty(ENV_VAR_APP_BASE_URL, env_vars)) {
        return Err(Error::MissingConfiguration);
    }
    if key_exists_and_is_not_empty(ENV_VAR_MAPPING, env_vars) && (key_exists_and_is_not_empty(
        ENV_VAR_PORT,
        env_vars,
    ) || key_exists_and_is_not_empty(ENV_VAR_OPENAPI_SOURCE, env_vars) || key_exists_and_is_not_empty(
        ENV_VAR_APP_BASE_URL,
        env_vars,
    )) {
        return Err(Error::ConflictingConfiguration);
    }
    Ok(())
}

impl CoveAPIConfig {
    /// Reads the configuration from the variables of the environment.
    pub fn from_raw(env_vars: &StringHashMap<String>) -> (read: Result<CoveAPIConfig, Error>)
        ensures
            match read {
                Ok(config) => configuration_given(env_vars@) == Ok::<ConfigView, ErrorView>(config@),
                Err(error) => configuration_given(env_vars@) == Err::<ConfigView, ErrorView>(error@),
            },
    {
        match check_sources(env_vars) {
            Ok(_) => {},
            Err(error) => {
                return Err(error);
            },
        }
        let debug = get_bool_env_var(ENV_VAR_DEBUG, env_vars);
        let security_accounts_for_forbidden = get_bool_env_var(ENV_VAR_ACCOUNT_FOR_FORBIDDEN, env_vars);
        let security_accounts_for_unautorized = get_bool_env_var(
            ENV_VAR_ACCOUNT_FOR_UNAUTORIZED,
            env_vars,
        );
        let is_merge = get_bool_env_var(ENV_VAR_IS_MERGE, env_vars);
        let only_account_for_merge = get_bool_env_var(ENV_VAR_ONLY_ACCOUNT_MERGE, env_vars);
        let groupings = match env_vars.get(ENV_VAR_GROUPINGS) {
            Some(grouping_str) => match parse_grouping(grouping_str.as_str()) {
                Ok(groupings) => groupings,
                Err(error) => {
                    return Err(error);
                },
            },
            None => {
                let groupings: Vec<Grouping> = Vec::new();
                assert(grouping_views(groupings@) =~= Seq::empty());
                groupings
            },
        };
        let runtimes = if !key_exists_and_is_not_empty(ENV_VAR_MAPPING, env_vars) {
            let openapi_source_str = match env_vars.get(ENV_VAR_OPENAPI_SOURCE) {
                Some(openapi_source) => openapi_source,
                None => {
                    return Err(Error::MissingConfiguration);
                },
            };
            let app_base_url_str = match env_vars.get(ENV_VAR_APP_BASE_URL) {
                Some(app_base_url) => app_base_url,
                None => {
                    return Err(Error::MissingConfiguration);
                },
            };
            let port_str = match env_vars.get(ENV_VAR_PORT) {
                Some(port_str) => {
                    if port_str.as_str().is_empty() {
                        None
                    } else {
                        Some(port_str.as_str())
                    }
                },
                None => None,
            };
            match parse_runtime(openapi_source_str.as_str(), app_base_url_str.as_str(), port_str) {
                Ok(runtime) => {
                    let mut runtimes: Vec<Arc<Runtime>> = Vec::new();
                    runtimes.push(runtime);
                    assert(runtime_views(runtimes@) =~= seq![runtime@]);
                    runtimes
                },
                Err(error) => {
                    return Err(error);
                },
            }
        } else {
            let mapping_str = match env_vars.get(ENV_VAR_MAPPING) {
                Some(mapping_str) => mapping_str,
                None => {
                    return Err(Error::MissingMapping);
                },
            };
            match parse_complex_mapping(mapping_str.as_str()) {
                Ok(runtimes) => runtimes,
                Err(error) => {
                    return Err(error);
                },
            }
        };
        Ok(
            CoveAPIConfig {
                debug,
                security_accounts_for_forbidden,
                security_accounts_for_unautorized,
                runtimes,
                is_merge,
                only_account_for_merge,
                groupings,
            },
        )
    }
}

} // verus!
