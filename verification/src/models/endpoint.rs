//! Endpoints and the templated paths that they are declared with.
//!
//! A path such as `/users/{id}/posts` is compiled into tokens: fixed text, and
//! a variable for each `{...}`. A compiled path encompasses a concrete path
//! when its tokens, walked from left to right, consume the concrete path
//! exactly.

use std::sync::Arc;
use vstd::prelude::*;
use vstd::string::StrSliceExecFns;
use vstd::string::StringExecFns;
use crate::config::Runtime;
use crate::config::RuntimeView;
use crate::models::misc::Method;
use crate::utils::error::Error;
use crate::utils::text::chars_of;
use crate::utils::text::occurs;
use crate::utils::text::occurs_at;
use crate::utils::text::same_text;

verus! {

/// A token of a compiled path.
#[derive(Debug, Clone, PartialEq, Eq, Hash)]
pub enum OpenapiPathComponent {
    Fixed(String),
    Variable,
}

/// A token of a compiled path, its text as a sequence of characters.
pub enum PathToken {
    Fixed(Seq<char>),
    Variable,
}

impl View for OpenapiPathComponent {
    type V = PathToken;

    open spec fn view(&self) -> PathToken {
        match self {
            OpenapiPathComponent::Fixed(text) => PathToken::Fixed(text@),
            OpenapiPathComponent::Variable => PathToken::Variable,
        }
    }
}

/// The tokens that `components` stand for.
pub open spec fn tokens_of(components: Seq<OpenapiPathComponent>) -> Seq<PathToken> {
    components.map_values(|component: OpenapiPathComponent| component@)
}

/// The first position at or after `from` at which `text` holds `c`, and the
/// length of `text` where there is none.
pub open spec fn find_char(text: Seq<char>, c: char, from: int) -> int
    decreases text.len() - from,
{
    if from >= text.len() {
        text.len() as int
    } else if text[from] == c {
        from
    } else {
        find_char(text, c, from + 1)
    }
}

/// The tokens of `text` from position `from` on.
///
/// The first `{` opens a variable, which the first `}` after it closes; the
/// text before the `{` is a fixed token, unless it is empty, and the name
/// between the braces is dropped. Where no `{` is left, or the one that is
/// left is never closed, all that remains is one fixed token.
pub open spec fn tokens_from(text: Seq<char>, from: int) -> Seq<PathToken>
    decreases text.len() - from,
{
    if from < 0 || from >= text.len() {
        Seq::empty()
    } else {
        let open = find_char(text, '{', from);
        let close = find_char(text, '}', open + 1);
        if from <= open < close < text.len() {
            let before = if from < open {
                seq![PathToken::Fixed(text.subrange(from, open))]
            } else {
                Seq::empty()
            };
            before + seq![PathToken::Variable] + tokens_from(text, close + 1)
        } else {
            seq![PathToken::Fixed(text.subrange(from, text.len() as int))]
        }
    }
}

/// The tokens that the path `source` compiles to.
pub open spec fn compile(source: Seq<char>) -> Seq<PathToken> {
    tokens_from(source, 0)
}

/// The text that ends the variable at position `k` of `tokens` early: that of
/// the token after it where that one is fixed, and the empty text otherwise.
/// A variable that another variable follows directly is therefore ended by a
/// `/` or the end of the text only, and leaves nothing for the one after it.
pub open spec fn literal_after(tokens: Seq<PathToken>, k: int) -> Seq<char> {
    if 0 <= k && k + 1 < tokens.len() {
        match tokens[k + 1] {
            PathToken::Fixed(text) => text,
            PathToken::Variable => Seq::empty(),
        }
    } else {
        Seq::empty()
    }
}

/// Where a variable that starts at `at` ends: at the first position from `at`
/// on that holds a `/`, or at which `next`, unless it is empty, occurs, and
/// at the end of `text` where there is no such position. A variable may
/// thus be empty, and it never holds a `/`.
pub open spec fn variable_end(text: Seq<char>, at: int, next: Seq<char>) -> int
    decreases text.len() - at,
{
    if at >= text.len() {
        at
    } else if text[at] == '/' || (next.len() > 0 && occurs_at(text, at, next)) {
        at
    } else {
        variable_end(text, at + 1, next)
    }
}

/// The position in `text` that is reached when the tokens from the `k`-th on
/// are walked from position `at`, and `None` when a fixed token does not
/// occur where it has to.
pub open spec fn walk(tokens: Seq<PathToken>, k: int, text: Seq<char>, at: int) -> Option<int>
    decreases tokens.len() - k,
{
    if k < 0 || k >= tokens.len() {
        Some(at)
    } else {
        match tokens[k] {
            PathToken::Fixed(literal) => {
                if occurs_at(text, at, literal) {
                    walk(tokens, k + 1, text, at + literal.len())
                } else {
                    None
                }
            },
            PathToken::Variable => walk(
                tokens,
                k + 1,
                text,
                variable_end(text, at, literal_after(tokens, k)),
            ),
        }
    }
}

/// Whether `tokens` consume all of `text`: nothing less, nothing more.
pub open spec fn encompasses(tokens: Seq<PathToken>, text: Seq<char>) -> bool {
    walk(tokens, 0, text, 0) == Some(text.len() as int)
}

/// The first position at or after `from` at which `text` holds `c`.
fn find(text: &Vec<char>, c: char, from: usize) -> (at: usize)
    requires
        from <= text.len(),
    ensures
        at == find_char(text@, c, from as int),
        from <= at <= text.len(),
{
    let mut at: usize = from;
    while at < text.len() && text[at] != c
        invariant
            from <= at <= text.len(),
            find_char(text@, c, at as int) == find_char(text@, c, from as int),
        decreases text.len() - at,
    {
        at += 1;
    }
    at
}

/// Where a variable that starts at `at` ends.
fn skip_variable(text: &Vec<char>, at: usize, next: &Vec<char>) -> (end: usize)
    requires
        at <= text.len(),
    ensures
        end == variable_end(text@, at as int, next@),
        at <= end <= text.len(),
{
    let mut end: usize = at;
    while end < text.len()
        invariant
            at <= end <= text.len(),
            variable_end(text@, end as int, next@) == variable_end(text@, at as int, next@),
        ensures
            at <= end <= text.len(),
            end == variable_end(text@, at as int, next@),
        decreases text.len() - end,
    {
        if text[end] == '/' || (next.len() > 0 && occurs(text, end, next)) {
            break;
        }
        end += 1;
    }
    end
}

/// A path, as it was written and as the tokens it compiles to.
#[derive(Debug, Hash)]
pub struct OpenapiPath {
    components: Vec<OpenapiPathComponent>,
    original_source: String,
}

impl View for OpenapiPath {
    type V = Seq<char>;

    /// The path as it was written.
    closed spec fn view(&self) -> Seq<char> {
        self.original_source@
    }
}

impl OpenapiPath {
    /// The tokens of the path.
    pub closed spec fn tokens(&self) -> Seq<PathToken> {
        tokens_of(self.components@)
    }

    /// The components are those that the source compiles to.
    #[verifier::type_invariant]
    spec fn compiled(&self) -> bool {
        tokens_of(self.components@) == compile(self.original_source@)
    }

    /// Compiles `s`. Every text is a path: a `{` that is never closed, and a
    /// `}` that closes nothing, are ordinary text.
    pub fn from_str(s: &str) -> (compiled: Result<OpenapiPath, Error>)
        ensures
            compiled is Ok,
            compiled->Ok_0@ == s@,
            compiled->Ok_0.tokens() == compile(s@),
    {
        let text = chars_of(s);
        let mut components: Vec<OpenapiPathComponent> = Vec::new();
        let mut from: usize = 0;
        while from < text.len()
            invariant
                from <= text.len(),
                text@ == s@,
                tokens_of(components@) + tokens_from(text@, from as int) == compile(text@),
            decreases text.len() - from,
        {
            let ghost before = tokens_of(components@);
            let open = find(&text, '{', from);
            let close = if open < text.len() {
                find(&text, '}', open + 1)
            } else {
                text.len()
            };
            if close < text.len() {
                if from < open {
                    let literal = String::from_str(s.substring_char(from, open));
                    components.push(OpenapiPathComponent::Fixed(literal));
                }
                components.push(OpenapiPathComponent::Variable);
                proof {
                    let head = if from < open {
                        seq![PathToken::Fixed(text@.subrange(from as int, open as int))]
                    } else {
                        Seq::empty()
                    };
                    assert(tokens_of(components@) =~= before + head + seq![PathToken::Variable]);
                    assert(before + (head + seq![PathToken::Variable] + tokens_from(
                        text@,
                        close + 1,
                    )) =~= before + head + seq![PathToken::Variable] + tokens_from(
                        text@,
                        close + 1,
                    ));
                }
                from = close + 1;
            } else {
                let literal = String::from_str(s.substring_char(from, text.len()));
                components.push(OpenapiPathComponent::Fixed(literal));
                proof {
                    let rest = seq![PathToken::Fixed(text@.subrange(from as int, text@.len() as int))];
                    assert(tokens_of(components@) =~= before + rest);
                    assert(before + rest + Seq::<PathToken>::empty() =~= before + rest);
                }
                from = text.len();
            }
        }
        proof {
            assert(tokens_of(components@) + Seq::<PathToken>::empty() =~= tokens_of(components@));
        }
        Ok(OpenapiPath { components, original_source: String::from_str(s) })
    }

    /// Whether this path, as a template, encompasses the path that `other`
    /// was written as.
    pub fn incompases_openapi_path(&self, other: &OpenapiPath) -> (encompassed: bool)
        ensures
            encompassed == encompasses(self.tokens(), other@),
            self.tokens() == compile(self@),
    {
        proof {
            use_type_invariant(self);
        }
        let text = chars_of(other.original_source.as_str());
        let ghost tokens = tokens_of(self.components@);
        let mut at: usize = 0;
        let mut k: usize = 0;
        while k < self.components.len()
            invariant
                k <= self.components.len(),
                at <= text.len(),
                tokens == tokens_of(self.components@),
                tokens == compile(self@),
                text@ == other@,
                walk(tokens, k as int, text@, at as int) == walk(tokens, 0, text@, 0),
            decreases self.components.len() - k,
        {
            match &self.components[k] {
                OpenapiPathComponent::Fixed(literal) => {
                    let literal = chars_of(literal.as_str());
                    if !occurs(&text, at, &literal) {
                        return false;
                    }
                    at += literal.len();
                },
                OpenapiPathComponent::Variable => {
                    let next = if k + 1 < self.components.len() {
                        match &self.components[k + 1] {
                            OpenapiPathComponent::Fixed(literal) => chars_of(literal.as_str()),
                            OpenapiPathComponent::Variable => Vec::new(),
                        }
                    } else {
                        Vec::new()
                    };
                    at = skip_variable(&text, at, &next);
                },
            }
            k += 1;
        }
        at == text.len()
    }

    /// The tokens of the path: those that the path, as it was written,
    /// compiles to.
    pub fn components(&self) -> (components: &Vec<OpenapiPathComponent>)
        ensures
            tokens_of(components@) == self.tokens(),
            self.tokens() == compile(self@),
    {
        proof {
            use_type_invariant(self);
        }
        &self.components
    }

    /// The path as it was written.
    pub fn original_source(&self) -> (source: &str)
        ensures
            source@ == self@,
    {
        self.original_source.as_str()
    }

}

impl Clone for OpenapiPath {
    fn clone(&self) -> (copy: OpenapiPath)
        ensures
            copy@ == self@,
            copy.tokens() == self.tokens(),
    {
        proof {
            use_type_invariant(self);
        }
        let mut components: Vec<OpenapiPathComponent> = Vec::new();
        let mut k: usize = 0;
        while k < self.components.len()
            invariant
                k <= self.components.len(),
                components@.len() == k,
                forall|i: int| 0 <= i < k ==> components@[i]@ == self.components@[i]@,
            decreases self.components.len() - k,
        {
            let component = match &self.components[k] {
                OpenapiPathComponent::Fixed(literal) => OpenapiPathComponent::Fixed(literal.clone()),
                OpenapiPathComponent::Variable => OpenapiPathComponent::Variable,
            };
            components.push(component);
            k += 1;
        }
        proof {
            assert(tokens_of(components@) =~= tokens_of(self.components@));
        }
        OpenapiPath { components, original_source: self.original_source.clone() }
    }
}

impl PartialEq for OpenapiPath {
    fn eq(&self, other: &OpenapiPath) -> (same: bool) {
        same_text(self.original_source.as_str(), other.original_source.as_str())
    }
}

impl vstd::std_specs::cmp::PartialEqSpecImpl for OpenapiPath {
    open spec fn obeys_eq_spec() -> bool {
        true
    }

    /// Two paths are the same when they were written the same: the tokens
    /// follow from that.
    open spec fn eq_spec(&self, other: &OpenapiPath) -> bool {
        self@ == other@
    }
}

impl Eq for OpenapiPath {}

/// An endpoint: a method, a path and a status code, with the service that it
/// belongs to. `is_generated` marks an endpoint that no document spells out,
/// such as the refusals that a security requirement implies.
#[derive(Debug, Clone)]
pub struct EndpointConfiguration {
    pub method: Method,
    pub path: OpenapiPath,
    pub status_code: u16,
    pub runtime: Arc<Runtime>,
    pub is_generated: bool,
}

/// What tells one endpoint from another: all of it but `is_generated`.
pub struct EndpointView {
    pub method: Method,
    pub path: Seq<char>,
    pub status_code: u16,
    pub runtime: RuntimeView,
}

impl View for EndpointConfiguration {
    type V = EndpointView;

    open spec fn view(&self) -> EndpointView {
        EndpointView {
            method: self.method,
            path: self.path@,
            status_code: self.status_code,
            runtime: self.runtime@,
        }
    }
}

/// An endpoint with all that it holds: what tells it from others, and
/// whether it was generated.
pub struct EndpointRecord {
    pub endpoint: EndpointView,
    pub is_generated: bool,
}

/// All that each of `endpoints` holds, in their order.
pub open spec fn records(endpoints: Seq<EndpointConfiguration>) -> Seq<EndpointRecord> {
    endpoints.map_values(|endpoint: EndpointConfiguration| endpoint.record())
}

impl EndpointView {
    /// Whether this endpoint, its path taken as a template, encompasses
    /// `other`: the same method, status code and service, and a path that
    /// encompasses the path that `other` was written as.
    pub open spec fn encompasses_endpoint(self, other: EndpointView) -> bool {
        &&& self.method == other.method
        &&& self.status_code == other.status_code
        &&& self.runtime == other.runtime
        &&& encompasses(compile(self.path), other.path)
    }
}

impl EndpointConfiguration {
    /// All that the endpoint holds.
    pub open spec fn record(self) -> EndpointRecord {
        EndpointRecord { endpoint: self@, is_generated: self.is_generated }
    }

    /// The endpoint of `method`, `openapi_path` and `status_code` for
    /// `runtime`. Every text is a path, so that no endpoint is refused.
    pub fn new(
        method: Method,
        openapi_path: &str,
        status_code: u16,
        runtime: Arc<Runtime>,
        is_generated: bool,
    ) -> (endpoint: Result<EndpointConfiguration, Error>)
        ensures
            endpoint is Ok,
            endpoint->Ok_0@ == (EndpointView {
                method,
                path: openapi_path@,
                status_code,
                runtime: runtime@,
            }),
            endpoint->Ok_0.is_generated == is_generated,
    {
        match OpenapiPath::from_str(openapi_path) {
            Ok(path) => Ok(EndpointConfiguration { method, path, status_code, runtime, is_generated }),
            Err(error) => Err(error),
        }
    }

    /// Whether this endpoint, its path taken as a template, encompasses
    /// `other`.
    pub fn incompases_endpoint(&self, other: &EndpointConfiguration) -> (encompassed: bool)
        ensures
            encompassed == self@.encompasses_endpoint(other@),
    {
        self.method == other.method && self.status_code == other.status_code
            && *self.runtime == *other.runtime && self.path.incompases_openapi_path(&other.path)
    }
}

impl PartialEq for EndpointConfiguration {
    fn eq(&self, other: &EndpointConfiguration) -> (same: bool) {
        self.method == other.method && self.path == other.path
            && self.status_code == other.status_code && *self.runtime == *other.runtime
    }
}

impl vstd::std_specs::cmp::PartialEqSpecImpl for EndpointConfiguration {
    open spec fn obeys_eq_spec() -> bool {
        true
    }

    open spec fn eq_spec(&self, other: &EndpointConfiguration) -> bool {
        self@ == other@
    }
}

impl Eq for EndpointConfiguration {}

/// A path whose first `{` is never closed compiles to one fixed token: the
/// path as it was written.
pub proof fn lemma_unclosed_brace_is_fixed_text(source: Seq<char>)
    requires
        source.len() > 0,
        find_char(source, '}', find_char(source, '{', 0) + 1) >= source.len(),
    ensures
        compile(source) == seq![PathToken::Fixed(source)],
{
    assert(source.subrange(0, source.len() as int) =~= source);
}

/// A path without a variable encompasses the text that it was written as, and
/// no other.
pub proof fn lemma_path_without_variable_encompasses_only_itself(
    source: Seq<char>,
    candidate: Seq<char>,
)
    requires
        forall|k: int| 0 <= k < compile(source).len() ==> compile(source)[k] is Fixed,
    ensures
        encompasses(compile(source), source),
        encompasses(compile(source), candidate) <==> candidate == source,
{
    let tokens = compile(source);
    if source.len() == 0 {
        assert(tokens =~= Seq::empty());
        assert(candidate.len() == 0 <==> candidate =~= source);
    } else {
        let open = find_char(source, '{', 0);
        let close = find_char(source, '}', open + 1);
        if 0 <= open < close < source.len() {
            let before = if 0 < open {
                seq![PathToken::Fixed(source.subrange(0, open))]
            } else {
                Seq::empty()
            };
            assert(tokens[before.len() as int] is Variable);
            assert(false);
        }
        assert(source.subrange(0, source.len() as int) =~= source);
        assert(tokens =~= seq![PathToken::Fixed(source)]);
        assert(walk(tokens, 1, candidate, source.len() as int) == Some(source.len() as int));
        assert(walk(tokens, 1, source, source.len() as int) == Some(source.len() as int));
        if occurs_at(candidate, 0, source) && source.len() == candidate.len() {
            assert(candidate.subrange(0, candidate.len() as int) =~= candidate);
        }
    }
}

} // verus!
