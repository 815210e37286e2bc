//! The endpoints that an OpenAPI document in JSON declares.

use std::sync::Arc;
use json::JsonValue;
use vstd::prelude::*;
use vstd::string::StringExecFns;
use crate::config::share;
use crate::config::Runtime;
use crate::config::RuntimeView;
use crate::models::endpoint::records;
use crate::models::endpoint::EndpointConfiguration;
use crate::models::endpoint::EndpointRecord;
use crate::models::endpoint::EndpointView;
use crate::models::misc::uppercase;
use crate::models::misc::Method;
use crate::parser::common::basepath_formatted;
use crate::parser::common::format_basepath;
use crate::utils::error::Error;
use crate::utils::error::ErrorView;
use crate::utils::text::parse_u16;
use crate::utils::text::same_text;
use crate::utils::text::spelled_u16;

verus! {

/// A value of the `json` crate: it is carried around, and looked into through
/// the functions below only.
#[verifier::external_type_specification]
#[verifier::external_body]
pub struct ExJsonValue(JsonValue);

/// What a JSON value holds, as far as it is read here: nothing, a text, the
/// entries of an object in the order in which they were written, or anything
/// else.
pub enum JsonTree {
    Null,
    Text(Seq<char>),
    Object(Seq<(Seq<char>, JsonTree)>),
    Other,
}

/// What `value` holds.
pub uninterp spec fn json_tree(value: JsonValue) -> JsonTree;

/// What `json::parse` makes of `text`: what the value holds that it reads,
/// or `None` where it refuses `text`.
pub uninterp spec fn json_parsed(text: Seq<char>) -> Option<JsonTree>;

/// The value of the first of the entries from the `from`-th on that has the
/// key `key`, and nothing where none has it.
pub open spec fn member_among(entries: Seq<(Seq<char>, JsonTree)>, key: Seq<char>, from: int) -> JsonTree
    decreases entries.len() - from,
{
    if from < 0 || from >= entries.len() {
        JsonTree::Null
    } else if entries[from].0 == key {
        entries[from].1
    } else {
        member_among(entries, key, from + 1)
    }
}

impl JsonTree {
    /// The entries of an object; anything else has none.
    pub open spec fn entries(self) -> Seq<(Seq<char>, JsonTree)> {
        match self {
            JsonTree::Object(entries) => entries,
            _ => Seq::empty(),
        }
    }

    /// What an object holds under `key`: nothing where it has no such entry,
    /// and nothing for what is no object.
    pub open spec fn member(self, key: Seq<char>) -> JsonTree {
        member_among(self.entries(), key, 0)
    }
}

/// What `entries` hold, in their order.
pub open spec fn entry_trees(entries: Seq<(&str, &JsonValue)>) -> Seq<(Seq<char>, JsonTree)> {
    entries.map_values(|entry: (&str, &JsonValue)| (entry.0@, json_tree(*entry.1)))
}

/// Calls `json::parse`. The contract only gives the outcome its name,
/// [`json_parsed`]: which texts are JSON is not stated here.
#[verifier::external_body]
fn json_parse(text: &str) -> (parsed: Option<JsonValue>)
    ensures
        match parsed {
            Some(value) => json_parsed(text@) == Some(json_tree(value)),
            None => json_parsed(text@) is None,
        },
{
    json::parse(text).ok()
}

/// Indexes `value` with `key`, as `JsonValue` implements it for `&str`: the
/// value under that key in an object, and the null value where the object
/// has no such key or `value` is no object.
#[verifier::external_body]
fn json_member<'a>(value: &'a JsonValue, key: &str) -> (member: &'a JsonValue)
    ensures
        json_tree(*member) == json_tree(*value).member(key@),
{
    &value[key]
}

/// Calls `JsonValue::is_null`.
#[verifier::external_body]
fn json_is_null(value: &JsonValue) -> (null: bool)
    ensures
        null == (json_tree(*value) is Null),
{
    value.is_null()
}

/// Calls `JsonValue::as_str`: the text of a string, and `None` for any other
/// value.
#[verifier::external_body]
fn json_as_str<'a>(value: &'a JsonValue) -> (text: Option<&'a str>)
    ensures
        match text {
            Some(text) => json_tree(*value) == JsonTree::Text(text@),
            None => !(json_tree(*value) is Text),
        },
{
    value.as_str()
}

/// Calls `JsonValue::entries`: the keys and values of an object in the order
/// in which they were written, and none for any other value.
#[verifier::external_body]
fn json_entries<'a>(value: &'a JsonValue) -> (entries: Vec<(&'a str, &'a JsonValue)>)
    ensures
        entry_trees(entries@) == json_tree(*value).entries(),
{
    value.entries().collect()
}

/// The endpoint of `method`, `path` and `status_code` that the document of
/// `runtime` spells out.
pub open spec fn declared(method: Method, path: Seq<char>, status_code: u16, runtime: RuntimeView) -> EndpointRecord {
    EndpointRecord {
        endpoint: EndpointView { method, path, status_code, runtime },
        is_generated: false,
    }
}

/// The endpoint of `method`, `path` and `status_code` that no document spells
/// out: a requirement of security implies it, and it counts as generated.
pub open spec fn implied(method: Method, path: Seq<char>, status_code: u16, runtime: RuntimeView) -> EndpointRecord {
    EndpointRecord {
        endpoint: EndpointView { method, path, status_code, runtime },
        is_generated: true,
    }
}

/// The endpoints of the first `n` of `responses`, whose keys spell status
/// codes; or the refusal of the first key that spells none.
pub open spec fn response_endpoints(
    responses: Seq<(Seq<char>, JsonTree)>,
    n: int,
    method: Method,
    path: Seq<char>,
    runtime: RuntimeView,
) -> Result<Seq<EndpointRecord>, ErrorView>
    decreases n,
{
    if n <= 0 {
        Ok(Seq::empty())
    } else {
        match response_endpoints(responses, n - 1, method, path, runtime) {
            Err(error) => Err(error),
            Ok(before) => match spelled_u16(responses[n - 1].0) {
                Some(status_code) => Ok(before.push(declared(method, path, status_code, runtime))),
                None => Err(ErrorView::InvalidParseStatusCode(responses[n - 1].0)),
            },
        }
    }
}

/// The endpoints of the operation `operation` of `method` on `path`: where
/// it asks for security, a generated one for the status code 401 and one for
/// 403, and then one for each of its responses. An operation without
/// responses is refused.
pub open spec fn operation_endpoints(
    operation: JsonTree,
    method: Method,
    path: Seq<char>,
    runtime: RuntimeView,
) -> Result<Seq<EndpointRecord>, ErrorView> {
    let responses = operation.member("responses"@);
    if responses is Null {
        Err(ErrorView::InvalidParseSyntax)
    } else {
        let secured = if operation.member("security"@) is Null {
            Seq::empty()
        } else {
            seq![implied(method, path, 401, runtime), implied(method, path, 403, runtime)]
        };
        match response_endpoints(
            responses.entries(),
            responses.entries().len() as int,
            method,
            path,
            runtime,
        ) {
            Err(error) => Err(error),
            Ok(listed) => Ok(secured + listed),
        }
    }
}

/// The methods that the keys of the first `n` of `operations` name, in
/// capitals or not; or the refusal of the first key that names none.
pub open spec fn operation_methods(operations: Seq<(Seq<char>, JsonTree)>, n: int) -> Result<
    Seq<Method>,
    ErrorView,
>
    decreases n,
{
    if n <= 0 {
        Ok(Seq::empty())
    } else {
        match operation_methods(operations, n - 1) {
            Err(error) => Err(error),
            Ok(before) => match Method::named(uppercase(operations[n - 1].0)) {
                Some(method) => Ok(before.push(method)),
                None => Err(ErrorView::InvalidParseMethod(operations[n - 1].0)),
            },
        }
    }
}

/// The endpoints of the first `n` of `operations`, whose methods are
/// `methods`, on `path`.
pub open spec fn operations_endpoints(
    operations: Seq<(Seq<char>, JsonTree)>,
    methods: Seq<Method>,
    n: int,
    path: Seq<char>,
    runtime: RuntimeView,
) -> Result<Seq<EndpointRecord>, ErrorView>
    decreases n,
{
    if n <= 0 {
        Ok(Seq::empty())
    } else {
        match operations_endpoints(operations, methods, n - 1, path, runtime) {
            Err(error) => Err(error),
            Ok(before) => match operation_endpoints(operations[n - 1].1, methods[n - 1], path, runtime) {
                Err(error) => Err(error),
                Ok(listed) => Ok(before + listed),
            },
        }
    }
}

/// The path of an item: the base path, followed by the key of the item
/// unless that is `/`; and `/` where this leaves nothing.
pub open spec fn item_path(base_path: Seq<char>, key: Seq<char>) -> Seq<char> {
    let path = if key == "/"@ {
        base_path
    } else {
        base_path + key
    };
    if path.len() == 0 {
        "/"@
    } else {
        path
    }
}

/// The endpoints of the path item `item` under `key`: the methods of all its
/// operations are read first, then the operations in their order.
pub open spec fn item_endpoints(
    base_path: Seq<char>,
    key: Seq<char>,
    item: JsonTree,
    runtime: RuntimeView,
) -> Result<Seq<EndpointRecord>, ErrorView> {
    let operations = item.entries();
    match operation_methods(operations, operations.len() as int) {
        Err(error) => Err(error),
        Ok(methods) => operations_endpoints(
            operations,
            methods,
            operations.len() as int,
            item_path(base_path, key),
            runtime,
        ),
    }
}

/// The endpoints of the first `n` of the path items `items`.
pub open spec fn items_endpoints(
    items: Seq<(Seq<char>, JsonTree)>,
    n: int,
    base_path: Seq<char>,
    runtime: RuntimeView,
) -> Result<Seq<EndpointRecord>, ErrorView>
    decreases n,
{
    if n <= 0 {
        Ok(Seq::empty())
    } else {
        match items_endpoints(items, n - 1, base_path, runtime) {
            Err(error) => Err(error),
            Ok(before) => match item_endpoints(base_path, items[n - 1].0, items[n - 1].1, runtime) {
                Err(error) => Err(error),
                Ok(listed) => Ok(before + listed),
            },
        }
    }
}

/// The endpoints that the document `document` declares for `runtime`.
///
/// The base path is the text under `basePath`, without a `/` at its end, and
/// empty where there is nothing under that key; anything else there is
/// refused. A document without `paths` is refused.
pub open spec fn document_endpoints(document: JsonTree, runtime: RuntimeView) -> Result<
    Seq<EndpointRecord>,
    ErrorView,
> {
    let base_path = match document.member("basePath"@) {
        JsonTree::Null => Some(Seq::<char>::empty()),
        JsonTree::Text(text) => Some(text),
        _ => None,
    };
    let paths = document.member("paths"@);
    match base_path {
        None => Err(ErrorView::InvalidBasePath),
        Some(base_path) => if paths is Null {
            Err(ErrorView::InvalidParseSyntax)
        } else {
            items_endpoints(
                paths.entries(),
                paths.entries().len() as int,
                basepath_formatted(base_path),
                runtime,
            )
        },
    }
}

/// The endpoints that the JSON document `parsed` declares for `runtime`; a
/// text that is no JSON is refused.
pub open spec fn json_endpoints(parsed: Option<JsonTree>, runtime: RuntimeView) -> Result<
    Seq<EndpointRecord>,
    ErrorView,
> {
    match parsed {
        None => Err(ErrorView::InvalidParseSyntax),
        Some(document) => document_endpoints(document, runtime),
    }
}

/// What `parsed` says, in views.
pub open spec fn endpoints_view(parsed: Result<Vec<EndpointConfiguration>, Error>) -> Result<
    Seq<EndpointRecord>,
    ErrorView,
> {
    match parsed {
        Ok(endpoints) => Ok(records(endpoints@)),
        Err(error) => Err(error@),
    }
}

/// A refusal among the first responses is the refusal of all.
proof fn lemma_response_refusal_stays(
    responses: Seq<(Seq<char>, JsonTree)>,
    k: int,
    n: int,
    method: Method,
    path: Seq<char>,
    runtime: RuntimeView,
)
    requires
        0 <= k <= n,
        response_endpoints(responses, k, method, path, runtime) is Err,
    ensures
        response_endpoints(responses, n, method, path, runtime) == response_endpoints(
            responses,
            k,
            method,
            path,
            runtime,
        ),
    decreases n - k,
{
    if k < n {
        lemma_response_refusal_stays(responses, k, n - 1, method, path, runtime);
    }
}

/// A refusal among the first keys is the refusal of all.
proof fn lemma_method_name_refusal_stays(operations: Seq<(Seq<char>, JsonTree)>, k: int, n: int)
    requires
        0 <= k <= n,
        operation_methods(operations, k) is Err,
    ensures
        operation_methods(operations, n) == operation_methods(operations, k),
    decreases n - k,
{
    if k < n {
        lemma_method_name_refusal_stays(operations, k, n - 1);
    }
}

/// A refusal among the first operations is the refusal of all.
proof fn lemma_operation_refusal_stays(
    operations: Seq<(Seq<char>, JsonTree)>,
    methods: Seq<Method>,
    k: int,
    n: int,
    path: Seq<char>,
    runtime: RuntimeView,
)
    requires
        0 <= k <= n,
        operations_endpoints(operations, methods, k, path, runtime) is Err,
    ensures
        operations_endpoints(operations, methods, n, path, runtime) == operations_endpoints(
            operations,
            methods,
            k,
            path,
            runtime,
        ),
    decreases n - k,
{
    if k < n {
        lemma_operation_refusal_stays(operations, methods, k, n - 1, path, runtime);
    }
}

/// A refusal among the first path items is the refusal of all.
proof fn lemma_item_refusal_stays(
    items: Seq<(Seq<char>, JsonTree)>,
    k: int,
    n: int,
    base_path: Seq<char>,
    runtime: RuntimeView,
)
    requires
        0 <= k <= n,
        items_endpoints(items, k, base_path, runtime) is Err,
    ensures
        items_endpoints(items, n, base_path, runtime) == items_endpoints(items, k, base_path, runtime),
    decreases n - k,
{
    if k < n {
        lemma_item_refusal_stays(items, k, n - 1, base_path, runtime);
    }
}

/// Adds to `endpoints` the generated endpoint of `method`, `path` and
/// `status_code`.
fn push_implied(
    endpoints: &mut Vec<EndpointConfiguration>,
    method: Method,
    path: &str,
    status_code: u16,
    runtime: &Arc<Runtime>,
)
    ensures
        records(final(endpoints)@) == records(old(endpoints)@).push(
            implied(method, path@, status_code, runtime@),
        ),
{
    let ghost before = records(endpoints@);
    match EndpointConfiguration::new(method, path, status_code, share(runtime), true) {
        Ok(endpoint) => {
            endpoints.push(endpoint);
            assert(records(endpoints@) =~= before.push(implied(method, path@, status_code, runtime@)));
        },
        Err(_) => {
            assert(false);
        },
    }
}

/// Adds to `endpoints` the endpoint of `method`, `path` and `status_code`.
fn push_declared(
    endpoints: &mut Vec<EndpointConfiguration>,
    method: Method,
    path: &str,
    status_code: u16,
    runtime: &Arc<Runtime>,
)
    ensures
        records(final(endpoints)@) == records(old(endpoints)@).push(
            declared(method, path@, status_code, runtime@),
        ),
{
    let ghost before = records(endpoints@);
    match EndpointConfiguration::new(method, path, status_code, share(runtime), false) {
        Ok(endpoint) => {
            endpoints.push(endpoint);
            assert(records(endpoints@) =~= before.push(declared(method, path@, status_code, runtime@)));
        },
        Err(_) => {
            assert(false);
        },
    }
}

/// Adds to `endpoints` the endpoints of the operation `operation`.
fn push_operation(
    endpoints: &mut Vec<EndpointConfiguration>,
    operation: &JsonValue,
    method: Method,
    path: &str,
    runtime: &Arc<Runtime>,
) -> (pushed: Result<(), Error>)
    ensures
        match pushed {
            Ok(_) => operation_endpoints(json_tree(*operation), method, path@, runtime@) matches Ok(added)
                && records(final(endpoints)@) == records(old(endpoints)@) + added,
            Err(error) => operation_endpoints(json_tree(*operation), method, path@, runtime@) == Err::<
                Seq<EndpointRecord>,
                ErrorView,
            >(error@),
        },
{
    let ghost start = records(endpoints@);
    let responses = json_member(operation, "responses");
    if json_is_null(responses) {
        return Err(Error::InvalidParseSyntax);
    }
    if !json_is_null(json_member(operation, "security")) {
        push_implied(endpoints, method, path, 401, runtime);
        push_implied(endpoints, method, path, 403, runtime);
    }
    let ghost secured = if json_tree(*operation).member("security"@) is Null {
        Seq::<EndpointRecord>::empty()
    } else {
        seq![implied(method, path@, 401, runtime@), implied(method, path@, 403, runtime@)]
    };
    proof {
        assert(records(endpoints@) =~= start + secured);
    }
    let entries = json_entries(responses);
    let ghost listed = entry_trees(entries@);
    let mut k: usize = 0;
    while k < entries.len()
        invariant
            k <= entries@.len(),
            listed == entry_trees(entries@),
            listed == json_tree(*responses).entries(),
            json_tree(*responses) == json_tree(*operation).member("responses"@),
            !(json_tree(*responses) is Null),
            response_endpoints(listed, k as int, method, path@, runtime@) matches Ok(added) && records(
                endpoints@,
            ) == start + secured + added,
        decreases entries@.len() - k,
    {
        let ghost added = response_endpoints(listed, k as int, method, path@, runtime@)->Ok_0;
        let key = entries[k].0;
        assert(listed[k as int].0 == key@);
        match parse_u16(key) {
            Some(status_code) => {
                push_declared(endpoints, method, path, status_code, runtime);
                proof {
                    let record = declared(method, path@, status_code, runtime@);
                    assert(records(endpoints@) =~= start + secured + added.push(record));
                }
            },
            None => {
                proof {
                    lemma_response_refusal_stays(listed, k + 1, listed.len() as int, method, path@, runtime@);
                }
                return Err(Error::InvalidParseStatusCode(String::from_str(key)));
            },
        }
        k += 1;
    }
    proof {
        let added = response_endpoints(listed, listed.len() as int, method, path@, runtime@)->Ok_0;
        assert(start + secured + added =~= start + (secured + added));
    }
    Ok(())
}

/// The methods that the keys of the operations of `path_json` name.
fn get_methods_from_path<'a>(path_json: &'a JsonValue) -> (named: Result<Vec<(Method, &'a JsonValue)>, Error>)
    ensures
        match named {
            Ok(methods) => {
                &&& operation_methods(
                    json_tree(*path_json).entries(),
                    json_tree(*path_json).entries().len() as int,
                ) == Ok::<Seq<Method>, ErrorView>(methods@.map_values(|pair: (Method, &JsonValue)| pair.0))
                &&& methods@.map_values(|pair: (Method, &JsonValue)| json_tree(*pair.1)) == json_tree(
                    *path_json,
                ).entries().map_values(|entry: (Seq<char>, JsonTree)| entry.1)
            },
            Err(error) => operation_methods(
                json_tree(*path_json).entries(),
                json_tree(*path_json).entries().len() as int,
            ) == Err::<Seq<Method>, ErrorView>(error@),
        },
{
    let entries = json_entries(path_json);
    let ghost operations = entry_trees(entries@);
    let mut methods: Vec<(Method, &'a JsonValue)> = Vec::new();
    let mut k: usize = 0;
    proof {
        assert(methods@.map_values(|pair: (Method, &JsonValue)| pair.0) =~= Seq::empty());
    }
    while k < entries.len()
        invariant
            k <= entries@.len(),
            operations == entry_trees(entries@),
            operations == json_tree(*path_json).entries(),
            methods@.len() == k,
            operation_methods(operations, k as int) == Ok::<Seq<Method>, ErrorView>(
                methods@.map_values(|pair: (Method, &JsonValue)| pair.0),
            ),
            forall|j: int| 0 <= j < k ==> json_tree(*(#[trigger] methods@[j]).1) == operations[j].1,
        decreases entries@.len() - k,
    {
        let ghost before = methods@.map_values(|pair: (Method, &JsonValue)| pair.0);
        let key = entries[k].0;
        assert(operations[k as int] == (key@, json_tree(*entries@[k as int].1)));
        match Method::from_str(key) {
            Some(method) => {
                methods.push((method, entries[k].1));
                assert(methods@.map_values(|pair: (Method, &JsonValue)| pair.0) =~= before.push(method));
            },
            None => {
                proof {
                    lemma_method_name_refusal_stays(operations, k + 1, operations.len() as int);
                }
                return Err(Error::InvalidParseMethod(String::from_str(key)));
            },
        }
        k += 1;
    }
    proof {
        assert(methods@.map_values(|pair: (Method, &JsonValue)| json_tree(*pair.1)) =~= operations.map_values(
            |entry: (Seq<char>, JsonTree)| entry.1,
        ));
    }
    Ok(methods)
}

/// Adds to `endpoints` the endpoints of the path item `item` under `key`.
fn push_item(
    endpoints: &mut Vec<EndpointConfiguration>,
    base_path: &str,
    key: &str,
    item: &JsonValue,
    runtime: &Arc<Runtime>,
) -> (pushed: Result<(), Error>)
    ensures
        match pushed {
            Ok(_) => item_endpoints(base_path@, key@, json_tree(*item), runtime@) matches Ok(added) && records(
                final(endpoints)@,
            ) == records(old(endpoints)@) + added,
            Err(error) => item_endpoints(base_path@, key@, json_tree(*item), runtime@) == Err::<
                Seq<EndpointRecord>,
                ErrorView,
            >(error@),
        },
{
    let ghost start = records(endpoints@);
    let mut path = String::from_str(base_path);
    if !same_text(key, "/") {
        path.append(key);
    }
    if path.as_str().is_empty() {
        path.append("/");
    }
    proof {
        assert(base_path@ + Seq::<char>::empty() =~= base_path@);
        assert(Seq::<char>::empty() + "/"@ =~= "/"@);
        assert(path@ =~= item_path(base_path@, key@));
    }
    let methods = match get_methods_from_path(item) {
        Ok(methods) => methods,
        Err(error) => {
            return Err(error);
        },
    };
    let ghost operations = json_tree(*item).entries();
    let ghost named = methods@.map_values(|pair: (Method, &JsonValue)| pair.0);
    proof {
        assert(records(endpoints@) =~= start + Seq::<EndpointRecord>::empty());
        assert(methods@.map_values(|pair: (Method, &JsonValue)| json_tree(*pair.1)).len() == operations.len());
    }
    let mut k: usize = 0;
    while k < methods.len()
        invariant
            k <= methods@.len(),
            methods@.len() == operations.len(),
            operations == json_tree(*item).entries(),
            named == methods@.map_values(|pair: (Method, &JsonValue)| pair.0),
            operation_methods(operations, operations.len() as int) == Ok::<Seq<Method>, ErrorView>(named),
            methods@.map_values(|pair: (Method, &JsonValue)| json_tree(*pair.1)) == operations.map_values(
                |entry: (Seq<char>, JsonTree)| entry.1,
            ),
            path@ == item_path(base_path@, key@),
            operations_endpoints(operations, named, k as int, path@, runtime@) matches Ok(added) && records(
                endpoints@,
            ) == start + added,
        decreases methods@.len() - k,
    {
        let ghost added = operations_endpoints(operations, named, k as int, path@, runtime@)->Ok_0;
        let method = methods[k].0;
        let operation = methods[k].1;
        proof {
            assert(named[k as int] == method);
            assert(methods@.map_values(|pair: (Method, &JsonValue)| json_tree(*pair.1))[k as int]
                == json_tree(*operation));
            assert(operations.map_values(|entry: (Seq<char>, JsonTree)| entry.1)[k as int]
                == operations[k as int].1);
        }
        match push_operation(endpoints, operation, method, path.as_str(), runtime) {
            Ok(_) => {
                proof {
                    let listed = operation_endpoints(json_tree(*operation), method, path@, runtime@)->Ok_0;
                    assert(start + added + listed =~= start + (added + listed));
                }
            },
            Err(error) => {
                proof {
                    lemma_operation_refusal_stays(
                        operations,
                        named,
                        k + 1,
                        operations.len() as int,
                        path@,
                        runtime@,
                    );
                }
                return Err(error);
            },
        }
        k += 1;
    }
    Ok(())
}

/// The endpoints that the OpenAPI document `json_string`, which is written
/// in JSON, declares for `runtime`.
pub fn parse_json_doc(json_string: &str, runtime: Arc<Runtime>) -> (parsed: Result<
    Vec<EndpointConfiguration>,
    Error,
>)
    ensures
        endpoints_view(parsed) == json_endpoints(json_parsed(json_string@), runtime@),
{
    let json_obj = match json_parse(json_string) {
        Some(json_obj) => json_obj,
        None => {
            return Err(Error::InvalidParseSyntax);
        },
    };
    parse_json_value(&json_obj, runtime)
}

/// The endpoints that the OpenAPI document `json_obj` declares for
/// `runtime`.
pub fn parse_json_value(json_obj: &JsonValue, runtime: Arc<Runtime>) -> (parsed: Result<
    Vec<EndpointConfiguration>,
    Error,
>)
    ensures
        endpoints_view(parsed) == document_endpoints(json_tree(*json_obj), runtime@),
{
    let mut endpoints: Vec<EndpointConfiguration> = Vec::new();
    let base_path_json = json_member(json_obj, "basePath");
    let base_path = if json_is_null(base_path_json) {
        ""
    } else {
        match json_as_str(base_path_json) {
            Some(base_path) => base_path,
            None => {
                return Err(Error::InvalidBasePath);
            },
        }
    };
    proof {
        reveal_strlit("");
        assert(""@ =~= Seq::<char>::empty());
    }
    let base_path = format_basepath(base_path);
    let paths = json_member(json_obj, "paths");
    if json_is_null(paths) {
        return Err(Error::InvalidParseSyntax);
    }
    let entries = json_entries(paths);
    let ghost items = entry_trees(entries@);
    proof {
        assert(records(endpoints@) =~= Seq::empty());
    }
    let mut k: usize = 0;
    while k < entries.len()
        invariant
            k <= entries@.len(),
            items == entry_trees(entries@),
            items == json_tree(*paths).entries(),
            json_tree(*paths) == json_tree(*json_obj).member("paths"@),
            !(json_tree(*paths) is Null),
            document_endpoints(json_tree(*json_obj), runtime@) == items_endpoints(
                items,
                items.len() as int,
                base_path@,
                runtime@,
            ),
            items_endpoints(items, k as int, base_path@, runtime@) == Ok::<Seq<EndpointRecord>, ErrorView>(
                records(endpoints@),
            ),
        decreases entries@.len() - k,
    {
        let ghost before = records(endpoints@);
        let key = entries[k].0;
        let item = entries[k].1;
        assert(items[k as int] == (key@, json_tree(*item)));
        match push_item(&mut endpoints, base_path, key, item, &runtime) {
            Ok(_) => {
                proof {
                    assert(Seq::<EndpointRecord>::empty() + before =~= before);
                }
            },
            Err(error) => {
                proof {
                    lemma_item_refusal_stays(items, k + 1, items.len() as int, base_path@, runtime@);
                }
                return Err(error);
            },
        }
        k += 1;
    }
    Ok(endpoints)
}

} // verus!
