//! The reading of OpenAPI documents and of the access log.

pub mod common;
pub mod http;
pub mod json_parser;
pub mod nginx_parser;
pub mod yaml_parser;

pub use nginx_parser::parse_nginx_line;
pub use nginx_parser::LinePattern;

use std::sync::Arc;
use vstd::prelude::*;
use crate::config::Runtime;
use crate::config::RuntimeView;
use crate::models::endpoint::EndpointConfiguration;
use crate::models::endpoint::EndpointRecord;
use crate::parser::json_parser::endpoints_view;
use crate::parser::json_parser::json_endpoints;
use crate::parser::json_parser::json_parsed;
use crate::parser::json_parser::parse_json_doc;
use crate::parser::yaml_parser::parse_yaml_doc;
use crate::parser::yaml_parser::yaml_text_endpoints;
use crate::utils::error::Error;
use crate::utils::error::ErrorView;
use crate::utils::text::same_text;

verus! {

/// Where the files of the repository are found.
pub const OPENAPI_MOUNT_POINT: &'static str = "/repo";

/// What follows the extension of a document in the name of its state before
/// the merge.
pub const PRE_MERGE_PATH_EXTENSION: &'static str = ".coveapi.old";

/// The endpoints that the document `document`, from a file with the
/// extension `extension`, declares for `runtime`: a file `json` is read as
/// JSON, a file `yaml` or `yml` as YAML, and no other.
pub open spec fn file_endpoints(extension: Seq<char>, document: Seq<char>, runtime: RuntimeView) -> Result<
    Seq<EndpointRecord>,
    ErrorView,
> {
    if extension == "json"@ {
        json_endpoints(json_parsed(document), runtime)
    } else if extension == "yaml"@ || extension == "yml"@ {
        yaml_text_endpoints(document, runtime)
    } else {
        Err(ErrorView::UnknownOpenApiFormat)
    }
}

/// Whether a file with the extension `extension` is read as an OpenAPI
/// document.
pub fn is_openapi_extension(extension: &str) -> (known: bool)
    ensures
        known == (extension@ == "json"@ || extension@ == "yaml"@ || extension@ == "yml"@),
{
    same_text(extension, "json") || same_text(extension, "yaml") || same_text(extension, "yml")
}

/// The endpoints that the document `document`, from a file with the
/// extension `extension`, declares for `runtime`.
pub fn parse_openapi_document(extension: &str, document: &str, runtime: Arc<Runtime>) -> (parsed: Result<
    Vec<EndpointConfiguration>,
    Error,
>)
    ensures
        endpoints_view(parsed) == file_endpoints(extension@, document@, runtime@),
{
    if same_text(extension, "json") {
        parse_json_doc(document, runtime)
    } else if same_text(extension, "yaml") || same_text(extension, "yml") {
        parse_yaml_doc(document, runtime)
    } else {
        Err(Error::UnknownOpenApiFormat)
    }
}

} // verus!
