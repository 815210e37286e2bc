//! What can go wrong while the configuration, an OpenAPI document or an
//! access log is read, and the message shown for each failure.

use vstd::prelude::*;
use vstd::string::StringExecFns;

verus! {

/// A failure, with the text that caused it where there is one.
///
/// The two variants that speak of a file hold its path as the text that is
/// to be shown for it.
#[derive(Debug, Clone, PartialEq, Eq)]
pub enum Error {
    InvalidApplicationURL(String),
    MissingConfiguration,
    ConflictingConfiguration,
    UnexpectedIOIssue(String),
    InvalidParseSyntax,
    InvalidBasePath,
    InvalidStatusCode(String),
    InvalidMethodString(String),
    InvalidParseStatusCode(String),
    InvalidParseMethod(String),
    ProblemOpeningFile(String),
    UnknownInternalError(String),
    UnknownOpenApiFormat,
    InvalidTestCoverage,
    OpenapiFetchConnectionFailure,
    OpenapiFetchInvalidUrl,
    OpenapiMalformedOnlineComponents,
    InvalidPortNumber(String),
    InvalidMappingSyntax(String),
    MissingMapping,
    MappingMissingSemicolon(String),
    OpenapiPathIsAbsolute(String),
    MappingDuplicatePorts,
    InvalidPath(String),
}

/// An [`Error`] with its texts as sequences of characters.
pub enum ErrorView {
    InvalidApplicationURL(Seq<char>),
    MissingConfiguration,
    ConflictingConfiguration,
    UnexpectedIOIssue(Seq<char>),
    InvalidParseSyntax,
    InvalidBasePath,
    InvalidStatusCode(Seq<char>),
    InvalidMethodString(Seq<char>),
    InvalidParseStatusCode(Seq<char>),
    InvalidParseMethod(Seq<char>),
    ProblemOpeningFile(Seq<char>),
    UnknownInternalError(Seq<char>),
    UnknownOpenApiFormat,
    InvalidTestCoverage,
    OpenapiFetchConnectionFailure,
    OpenapiFetchInvalidUrl,
    OpenapiMalformedOnlineComponents,
    InvalidPortNumber(Seq<char>),
    InvalidMappingSyntax(Seq<char>),
    MissingMapping,
    MappingMissingSemicolon(Seq<char>),
    OpenapiPathIsAbsolute(Seq<char>),
    MappingDuplicatePorts,
    InvalidPath(Seq<char>),
}

impl View for Error {
    type V = ErrorView;

    open spec fn view(&self) -> ErrorView {
        match self {
            Error::InvalidApplicationURL(text) => ErrorView::InvalidApplicationURL(text@),
            Error::MissingConfiguration => ErrorView::MissingConfiguration,
            Error::ConflictingConfiguration => ErrorView::ConflictingConfiguration,
            Error::UnexpectedIOIssue(text) => ErrorView::UnexpectedIOIssue(text@),
            Error::InvalidParseSyntax => ErrorView::InvalidParseSyntax,
            Error::InvalidBasePath => ErrorView::InvalidBasePath,
            Error::InvalidStatusCode(text) => ErrorView::InvalidStatusCode(text@),
            Error::InvalidMethodString(text) => ErrorView::InvalidMethodString(text@),
            Error::InvalidParseStatusCode(text) => ErrorView::InvalidParseStatusCode(text@),
            Error::InvalidParseMethod(text) => ErrorView::InvalidParseMethod(text@),
            Error::ProblemOpeningFile(text) => ErrorView::ProblemOpeningFile(text@),
            Error::UnknownInternalError(text) => ErrorView::UnknownInternalError(text@),
            Error::UnknownOpenApiFormat => ErrorView::UnknownOpenApiFormat,
            Error::InvalidTestCoverage => ErrorView::InvalidTestCoverage,
            Error::OpenapiFetchConnectionFailure => ErrorView::OpenapiFetchConnectionFailure,
            Error::OpenapiFetchInvalidUrl => ErrorView::OpenapiFetchInvalidUrl,
            Error::OpenapiMalformedOnlineComponents => ErrorView::OpenapiMalformedOnlineComponents,
            Error::InvalidPortNumber(text) => ErrorView::InvalidPortNumber(text@),
            Error::InvalidMappingSyntax(text) => ErrorView::InvalidMappingSyntax(text@),
            Error::MissingMapping => ErrorView::MissingMapping,
            Error::MappingMissingSemicolon(text) => ErrorView::MappingMissingSemicolon(text@),
            Error::OpenapiPathIsAbsolute(text) => ErrorView::OpenapiPathIsAbsolute(text@),
            Error::MappingDuplicatePorts => ErrorView::MappingDuplicatePorts,
            Error::InvalidPath(text) => ErrorView::InvalidPath(text@),
        }
    }
}

impl ErrorView {
    /// The message shown for this failure.
    pub open spec fn message(self) -> Seq<char> {
        match self {
            ErrorView::InvalidApplicationURL(text) => "Invalid application URL provided: "@ + text,
            ErrorView::MissingConfiguration => "Your configuration is missing wither a mapping or an openapi source with it's respective application URL."@,
            ErrorView::ConflictingConfiguration => "You can either provide a mapping or openapi location, port and application URL. Providing both is not possible at this time."@,
            ErrorView::UnexpectedIOIssue(text) => "An issue with IO occured: "@ + text,
            ErrorView::ProblemOpeningFile(text) => "An issue opening the openapi ("@ + text + ") file occured."@,
            ErrorView::InvalidParseSyntax => "The syntax of the openapi file is incorrect."@,
            ErrorView::InvalidParseMethod(text) => "The openapi file contains an invalid method: "@ + text,
            ErrorView::InvalidParseStatusCode(text) => "The openapi file contains an invalid status code: "@ + text,
            ErrorView::UnknownInternalError(text) => "An unknown internal error occured, please open an issue on github for this ["@ + text + "]."@,
            ErrorView::InvalidBasePath => "Basepath provided in openapi spec isn't valid."@,
            ErrorView::InvalidMethodString(text) => "The following method you provided is invalid: \""@ + text + "\""@,
            ErrorView::InvalidStatusCode(text) => "The following status code you provided is invalid: \""@ + text + "\""@,
            ErrorView::UnknownOpenApiFormat => "CoveAPI can only parse json and yaml formats,"@,
            ErrorView::InvalidTestCoverage => "Your test coverage has to be a value between 0 and 1 or a percentage between 0% and 100%."@,
            ErrorView::OpenapiFetchConnectionFailure => "No connection to the specified openapi url could be made."@,
            ErrorView::OpenapiFetchInvalidUrl => "The specified openapi url is invalid."@,
            ErrorView::OpenapiMalformedOnlineComponents => "Some contents of the specified openapi resource are malformed."@,
            ErrorView::InvalidPortNumber(text) => "The specified port number is invalid: \""@ + text + "\""@,
            ErrorView::InvalidMappingSyntax(text) => "The syntax of your mapping is invalid: "@ + text,
            ErrorView::MissingMapping => "Please provide a mapping to your configuration, the current mapping is either empty or wasn't provided."@,
            ErrorView::MappingMissingSemicolon(text) => "The follwing mapping is missing a semicolon or is incomplete, please follow the 'service url; openapi source; port;' syntax: "@ + text,
            ErrorView::OpenapiPathIsAbsolute(text) => "The following path is absolute, please only specify relative paths: "@ + text,
            ErrorView::MappingDuplicatePorts => "The mapping contains duplicate ports, every port can only be used once."@,
            ErrorView::InvalidPath(text) => "The following path failed to parse: "@ + text,
        }
    }
}

/// `before`, then `text`, then `after`.
fn framed(before: &str, text: &str, after: &str) -> (message: String)
    ensures
        message@ == before@ + text@ + after@,
{
    let mut message = String::from_str(before);
    message.append(text);
    message.append(after);
    message
}

impl Error {
    /// The message shown for this failure.
    pub fn get_error_msg(&self) -> (message: String)
        ensures
            message@ == self@.message(),
    {
        match self {
            Error::InvalidApplicationURL(text) => String::from_str("Invalid application URL provided: ").concat(text.as_str()),
            Error::MissingConfiguration => String::from_str("Your configuration is missing wither a mapping or an openapi source with it's respective application URL."),
            Error::ConflictingConfiguration => String::from_str("You can either provide a mapping or openapi location, port and application URL. Providing both is not possible at this time."),
            Error::UnexpectedIOIssue(text) => String::from_str("An issue with IO occured: ").concat(text.as_str()),
            Error::ProblemOpeningFile(text) => framed("An issue opening the openapi (", text.as_str(), ") file occured."),
            Error::InvalidParseSyntax => String::from_str("The syntax of the openapi file is incorrect."),
            Error::InvalidParseMethod(text) => String::from_str("The openapi file contains an invalid method: ").concat(text.as_str()),
            Error::InvalidParseStatusCode(text) => String::from_str("The openapi file contains an invalid status code: ").concat(text.as_str()),
            Error::UnknownInternalError(text) => framed("An unknown internal error occured, please open an issue on github for this [", text.as_str(), "]."),
            Error::InvalidBasePath => String::from_str("Basepath provided in openapi spec isn't valid."),
            Error::InvalidMethodString(text) => framed("The following method you provided is invalid: \"", text.as_str(), "\""),
            Error::InvalidStatusCode(text) => framed("The following status code you provided is invalid: \"", text.as_str(), "\""),
            Error::UnknownOpenApiFormat => String::from_str("CoveAPI can only parse json and yaml formats,"),
            Error::InvalidTestCoverage => String::from_str("Your test coverage has to be a value between 0 and 1 or a percentage between 0% and 100%."),
            Error::OpenapiFetchConnectionFailure => String::from_str("No connection to the specified openapi url could be made."),
            Error::OpenapiFetchInvalidUrl => String::from_str("The specified openapi url is invalid."),
            Error::OpenapiMalformedOnlineComponents => String::from_str("Some contents of the specified openapi resource are malformed."),
            Error::InvalidPortNumber(text) => framed("The specified port number is invalid: \"", text.as_str(), "\""),
            Error::InvalidMappingSyntax(text) => String::from_str("The syntax of your mapping is invalid: ").concat(text.as_str()),
            Error::MissingMapping => String::from_str("Please provide a mapping to your configuration, the current mapping is either empty or wasn't provided."),
            Error::MappingMissingSemicolon(text) => String::from_str("The follwing mapping is missing a semicolon or is incomplete, please follow the 'service url; openapi source; port;' syntax: ").concat(text.as_str()),
            Error::OpenapiPathIsAbsolute(text) => String::from_str("The following path is absolute, please only specify relative paths: ").concat(text.as_str()),
            Error::MappingDuplicatePorts => String::from_str("The mapping contains duplicate ports, every port can only be used once."),
            Error::InvalidPath(text) => String::from_str("The following path failed to parse: ").concat(text.as_str()),
        }
    }
}

} // verus!
