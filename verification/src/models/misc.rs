//! The HTTP methods that an endpoint can be declared for.

use vstd::prelude::*;
use crate::utils::text::same_text;

verus! {

/// An HTTP method.
#[derive(Debug, Clone, Copy, PartialEq, Eq, Structural, PartialOrd, Ord, Hash)]
pub enum Method {
    GET,
    PUT,
    POST,
    DELETE,
    OPTIONS,
    HEAD,
    PATCH,
    TRACE,
}

/// The upper-case form of `text`, as `str::to_uppercase` gives it.
pub uninterp spec fn uppercase(text: Seq<char>) -> Seq<char>;

/// Calls `str::to_uppercase`. The contract only gives the outcome its name,
/// [`uppercase`]: which characters Unicode maps to which is not stated here.
#[verifier::external_body]
fn to_uppercase(text: &str) -> (upper: String)
    ensures
        upper@ == uppercase(text@),
{
    text.to_uppercase()
}

impl Method {
    /// The name of the method, in capitals.
    pub open spec fn name(self) -> Seq<char> {
        match self {
            Method::GET => "GET"@,
            Method::PUT => "PUT"@,
            Method::POST => "POST"@,
            Method::DELETE => "DELETE"@,
            Method::OPTIONS => "OPTIONS"@,
            Method::HEAD => "HEAD"@,
            Method::PATCH => "PATCH"@,
            Method::TRACE => "TRACE"@,
        }
    }

    /// The method whose name is `name`, if there is one.
    pub open spec fn named(name: Seq<char>) -> Option<Method> {
        if name == Method::GET.name() {
            Some(Method::GET)
        } else if name == Method::PUT.name() {
            Some(Method::PUT)
        } else if name == Method::POST.name() {
            Some(Method::POST)
        } else if name == Method::DELETE.name() {
            Some(Method::DELETE)
        } else if name == Method::OPTIONS.name() {
            Some(Method::OPTIONS)
        } else if name == Method::HEAD.name() {
            Some(Method::HEAD)
        } else if name == Method::PATCH.name() {
            Some(Method::PATCH)
        } else if name == Method::TRACE.name() {
            Some(Method::TRACE)
        } else {
            None
        }
    }

    /// The place of the method in the order of the declaration above.
    pub open spec fn rank(self) -> nat {
        match self {
            Method::GET => 0,
            Method::PUT => 1,
            Method::POST => 2,
            Method::DELETE => 3,
            Method::OPTIONS => 4,
            Method::HEAD => 5,
            Method::PATCH => 6,
            Method::TRACE => 7,
        }
    }

    /// The name of the method, in capitals.
    pub fn as_str(&self) -> (name: &str)
        ensures
            name@ == self.name(),
    {
        match self {
            Method::GET => "GET",
            Method::PUT => "PUT",
            Method::POST => "POST",
            Method::DELETE => "DELETE",
            Method::OPTIONS => "OPTIONS",
            Method::HEAD => "HEAD",
            Method::PATCH => "PATCH",
            Method::TRACE => "TRACE",
        }
    }

    /// The method that `name` spells in capitals, if it spells one.
    pub fn from_upper(name: &str) -> (method: Option<Method>)
        ensures
            method == Method::named(name@),
    {
        if same_text(name, "GET") {
            Some(Method::GET)
        } else if same_text(name, "PUT") {
            Some(Method::PUT)
        } else if same_text(name, "POST") {
            Some(Method::POST)
        } else if same_text(name, "DELETE") {
            Some(Method::DELETE)
        } else if same_text(name, "OPTIONS") {
            Some(Method::OPTIONS)
        } else if same_text(name, "HEAD") {
            Some(Method::HEAD)
        } else if same_text(name, "PATCH") {
            Some(Method::PATCH)
        } else if same_text(name, "TRACE") {
            Some(Method::TRACE)
        } else {
            None
        }
    }

    /// The method that `method_str` spells, in capitals or not.
    pub fn from_str(method_str: &str) -> (method: Option<Method>)
        ensures
            method == Method::named(uppercase(method_str@)),
    {
        let upper = to_uppercase(method_str);
        Method::from_upper(upper.as_str())
    }

    /// The place of the method in the order of its declaration.
    pub fn position(&self) -> (rank: u8)
        ensures
            rank == self.rank(),
    {
        match self {
            Method::GET => 0,
            Method::PUT => 1,
            Method::POST => 2,
            Method::DELETE => 3,
            Method::OPTIONS => 4,
            Method::HEAD => 5,
            Method::PATCH => 6,
            Method::TRACE => 7,
        }
    }
}

/// Each method is found again by its name, and by no other name.
pub proof fn lemma_method_names(method: Method, name: Seq<char>)
    ensures
        Method::named(method.name()) == Some(method),
        Method::named(name) == Some(method) <==> name == method.name(),
{
    reveal_strlit("GET");
    reveal_strlit("PUT");
    reveal_strlit("POST");
    reveal_strlit("DELETE");
    reveal_strlit("OPTIONS");
    reveal_strlit("HEAD");
    reveal_strlit("PATCH");
    reveal_strlit("TRACE");
    assert("GET"@.len() == 3 && "PUT"@.len() == 3 && "POST"@.len() == 4 && "DELETE"@.len() == 6);
    assert("OPTIONS"@.len() == 7 && "HEAD"@.len() == 4 && "PATCH"@.len() == 5 && "TRACE"@.len() == 5);
    assert("GET"@[0] == 'G' && "PUT"@[0] == 'P' && "POST"@[0] == 'P' && "HEAD"@[0] == 'H');
    assert("PUT"@[1] == 'U' && "POST"@[1] == 'O' && "PATCH"@[0] == 'P' && "TRACE"@[0] == 'T');
}

} // verus!
