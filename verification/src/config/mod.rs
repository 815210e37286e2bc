//! The services under test.

pub mod environment;
pub mod nginx;

use vstd::prelude::*;
pub use vstd::hash_map::StringHashMap;
use std::sync::Arc;
use crate::models::grouping::Grouping;
use crate::models::grouping::GroupingView;
use crate::utils::text::comes_before;
use crate::utils::text::lemma_text_order_is_total;
use crate::utils::text::lemma_text_order_is_transitive;
use crate::utils::text::same_text;
use crate::utils::text::text_before;

verus! {

/// Where the OpenAPI document of a service is found: a file, by its path, or
/// a URL, in its normalised spelling.
#[derive(Debug, Clone, Hash)]
pub enum OpenapiSource {
    Path(String),
    Url(String),
}

/// A service under test: where its OpenAPI document is, the URL that requests
/// are passed on to, in its normalised spelling, and the port that the proxy
/// listens on in its name.
#[derive(Debug, Clone, Hash)]
pub struct Runtime {
    pub openapi_source: OpenapiSource,
    pub app_base_url: String,
    pub port: u16,
}

/// What the environment asks for: flags, the services under test, and the
/// groupings, of which no two are alike.
#[derive(Debug)]
pub struct CoveAPIConfig {
    pub debug: bool,
    pub security_accounts_for_forbidden: bool,
    pub security_accounts_for_unautorized: bool,
    pub runtimes: Vec<Arc<Runtime>>,
    pub is_merge: bool,
    pub only_account_for_merge: bool,
    pub groupings: Vec<Grouping>,
}

/// A [`CoveAPIConfig`] with its services and groupings as views.
pub struct ConfigView {
    pub debug: bool,
    pub security_accounts_for_forbidden: bool,
    pub security_accounts_for_unautorized: bool,
    pub runtimes: Seq<RuntimeView>,
    pub is_merge: bool,
    pub only_account_for_merge: bool,
    pub groupings: Seq<GroupingView>,
}

impl View for CoveAPIConfig {
    type V = ConfigView;

    open spec fn view(&self) -> ConfigView {
        ConfigView {
            debug: self.debug,
            security_accounts_for_forbidden: self.security_accounts_for_forbidden,
            security_accounts_for_unautorized: self.security_accounts_for_unautorized,
            runtimes: self.runtimes@.map_values(|runtime: Arc<Runtime>| runtime@),
            is_merge: self.is_merge,
            only_account_for_merge: self.only_account_for_merge,
            groupings: self.groupings@.map_values(|grouping: Grouping| grouping@),
        }
    }
}

impl CoveAPIConfig {
    /// Whether the document of every service is a file.
    pub fn all_openapi_sources_are_paths(&self) -> (all: bool)
        ensures
            all == self@.all_sources_are_paths(),
    {
        let mut k: usize = 0;
        while k < self.runtimes.len()
            invariant
                k <= self.runtimes@.len(),
                forall|j: int| 0 <= j < k ==> self@.runtimes[j].openapi_source is Path,
            decreases self.runtimes@.len() - k,
        {
            match self.runtimes[k].openapi_source {
                OpenapiSource::Url(_) => {
                    assert(!(self@.runtimes[k as int].openapi_source is Path));
                    return false;
                },
                OpenapiSource::Path(_) => (),
            }
            k += 1;
        }
        true
    }
}

/// Which of the declared endpoints an evaluation accounts for.
#[derive(Debug, Clone, Copy, PartialEq, Eq, Structural)]
pub enum MergeScope {
    /// All of them.
    Everything,
    /// Those that the state before the merge does not declare.
    SinceBaseline,
}

/// Why only the difference of a merge cannot be accounted for.
#[derive(Debug, Clone, Copy, PartialEq, Eq, Structural)]
pub enum MergeObstacle {
    /// A document is fetched and not read from a file, so that its earlier
    /// state cannot be had.
    DynamicSource,
    /// There are no two commits to compare.
    NoMerge,
}

impl MergeObstacle {
    /// The message shown for the obstacle.
    pub open spec fn message(self) -> Seq<char> {
        match self {
            MergeObstacle::DynamicSource => "Your configuration contains a dynamically loaded openapi spec. CoveAPI needs it to be a local file when only accounting for the difference between commits."@,
            MergeObstacle::NoMerge => "You need to have two commits to compare (ex. pull/merge request) when only accounting for the difference between commits."@,
        }
    }

    /// The message shown for the obstacle.
    pub fn as_str(&self) -> (message: &'static str)
        ensures
            message@ == self.message(),
    {
        match self {
            MergeObstacle::DynamicSource => "Your configuration contains a dynamically loaded openapi spec. CoveAPI needs it to be a local file when only accounting for the difference between commits.",
            MergeObstacle::NoMerge => "You need to have two commits to compare (ex. pull/merge request) when only accounting for the difference between commits.",
        }
    }
}

impl ConfigView {
    /// Whether the document of every service is a file.
    pub open spec fn all_sources_are_paths(self) -> bool {
        forall|k: int| 0 <= k < self.runtimes.len() ==> self.runtimes[k].openapi_source is Path
    }

    /// What an evaluation accounts for. Where only the difference of a merge
    /// is asked for, every document has to be a file; then the difference is
    /// taken if there is a merge, and everything else.
    pub open spec fn merge_scope(self) -> Result<MergeScope, MergeObstacle> {
        if self.only_account_for_merge && !self.all_sources_are_paths() {
            if self.is_merge {
                Err(MergeObstacle::DynamicSource)
            } else {
                Err(MergeObstacle::NoMerge)
            }
        } else if self.is_merge && self.only_account_for_merge {
            Ok(MergeScope::SinceBaseline)
        } else {
            Ok(MergeScope::Everything)
        }
    }
}

impl CoveAPIConfig {
    /// What an evaluation accounts for, or why it cannot account for what
    /// was asked.
    pub fn merge_scope(&self) -> (scope: Result<MergeScope, MergeObstacle>)
        ensures
            scope == self@.merge_scope(),
    {
        if self.only_account_for_merge && !self.all_openapi_sources_are_paths() {
            if self.is_merge {
                Err(MergeObstacle::DynamicSource)
            } else {
                Err(MergeObstacle::NoMerge)
            }
        } else if self.is_merge && self.only_account_for_merge {
            Ok(MergeScope::SinceBaseline)
        } else {
            Ok(MergeScope::Everything)
        }
    }
}

/// An [`OpenapiSource`] with its text as a sequence of characters.
pub enum OpenapiSourceView {
    Path(Seq<char>),
    Url(Seq<char>),
}

/// A [`Runtime`] with its texts as sequences of characters.
pub struct RuntimeView {
    pub openapi_source: OpenapiSourceView,
    pub app_base_url: Seq<char>,
    pub port: u16,
}

impl View for OpenapiSource {
    type V = OpenapiSourceView;

    open spec fn view(&self) -> OpenapiSourceView {
        match self {
            OpenapiSource::Path(path) => OpenapiSourceView::Path(path@),
            OpenapiSource::Url(url) => OpenapiSourceView::Url(url@),
        }
    }
}

impl View for Runtime {
    type V = RuntimeView;

    open spec fn view(&self) -> RuntimeView {
        RuntimeView {
            openapi_source: self.openapi_source@,
            app_base_url: self.app_base_url@,
            port: self.port,
        }
    }
}

/// Calls `Arc::clone`: another handle on the same service.
#[verifier::external_body]
pub(crate) fn share(runtime: &Arc<Runtime>) -> (shared: Arc<Runtime>)
    ensures
        shared == *runtime,
{
    Arc::clone(runtime)
}

impl OpenapiSourceView {
    /// Whether this source comes before `other`: a path before a URL, and
    /// two of a kind in the order of the dictionary.
    pub open spec fn before(self, other: OpenapiSourceView) -> bool {
        match (self, other) {
            (OpenapiSourceView::Path(a), OpenapiSourceView::Path(b)) => text_before(a, b),
            (OpenapiSourceView::Path(_), OpenapiSourceView::Url(_)) => true,
            (OpenapiSourceView::Url(_), OpenapiSourceView::Path(_)) => false,
            (OpenapiSourceView::Url(a), OpenapiSourceView::Url(b)) => text_before(a, b),
        }
    }

    /// The text of the source.
    pub open spec fn text(self) -> Seq<char> {
        match self {
            OpenapiSourceView::Path(text) => text,
            OpenapiSourceView::Url(text) => text,
        }
    }
}

impl RuntimeView {
    /// Whether this service comes before `other`: by the source of the
    /// document, then by the URL, then by the port.
    pub open spec fn before(self, other: RuntimeView) -> bool {
        ||| self.openapi_source.before(other.openapi_source)
        ||| self.openapi_source == other.openapi_source && text_before(
            self.app_base_url,
            other.app_base_url,
        )
        ||| self.openapi_source == other.openapi_source && self.app_base_url == other.app_base_url
            && self.port < other.port
    }
}

/// Of two different services one comes before the other, and never both.
pub proof fn lemma_runtime_order_is_total(a: RuntimeView, b: RuntimeView)
    ensures
        a != b ==> a.before(b) || b.before(a),
        !(a.before(b) && b.before(a)),
        !a.before(a),
{
    lemma_text_order_is_total(a.openapi_source.text(), b.openapi_source.text(), 0);
    lemma_text_order_is_total(a.openapi_source.text(), a.openapi_source.text(), 0);
    lemma_text_order_is_total(a.app_base_url, b.app_base_url, 0);
    lemma_text_order_is_total(a.app_base_url, a.app_base_url, 0);
}

/// The order of the services is transitive.
pub proof fn lemma_runtime_order_is_transitive(a: RuntimeView, b: RuntimeView, c: RuntimeView)
    requires
        a.before(b),
        b.before(c),
    ensures
        a.before(c),
{
    lemma_runtime_order_is_total(a, b);
    lemma_runtime_order_is_total(b, c);
    if a.openapi_source.before(b.openapi_source) && b.openapi_source.before(c.openapi_source) {
        if a.openapi_source is Path == c.openapi_source is Path {
            lemma_text_order_is_transitive(
                a.openapi_source.text(),
                b.openapi_source.text(),
                c.openapi_source.text(),
                0,
            );
        }
    } else if a.openapi_source == b.openapi_source && b.openapi_source == c.openapi_source {
        if text_before(a.app_base_url, b.app_base_url) && text_before(b.app_base_url, c.app_base_url) {
            lemma_text_order_is_transitive(a.app_base_url, b.app_base_url, c.app_base_url, 0);
        }
    }
}

impl OpenapiSource {
    /// Whether this source comes before `other`.
    pub fn comes_before(&self, other: &OpenapiSource) -> (before: bool)
        ensures
            before == self@.before(other@),
    {
        match (self, other) {
            (OpenapiSource::Path(a), OpenapiSource::Path(b)) => comes_before(a.as_str(), b.as_str()),
            (OpenapiSource::Path(_), OpenapiSource::Url(_)) => true,
            (OpenapiSource::Url(_), OpenapiSource::Path(_)) => false,
            (OpenapiSource::Url(a), OpenapiSource::Url(b)) => comes_before(a.as_str(), b.as_str()),
        }
    }
}

impl Runtime {
    /// Whether this service comes before `other`.
    pub fn comes_before(&self, other: &Runtime) -> (before: bool)
        ensures
            before == self@.before(other@),
    {
        if self.openapi_source.comes_before(&other.openapi_source) {
            true
        } else if self.openapi_source != other.openapi_source {
            false
        } else if comes_before(self.app_base_url.as_str(), other.app_base_url.as_str()) {
            true
        } else {
            same_text(self.app_base_url.as_str(), other.app_base_url.as_str()) && self.port
                < other.port
        }
    }
}

impl PartialEq for OpenapiSource {
    fn eq(&self, other: &OpenapiSource) -> (same: bool) {
        match (self, other) {
            (OpenapiSource::Path(a), OpenapiSource::Path(b)) => same_text(a.as_str(), b.as_str()),
            (OpenapiSource::Url(a), OpenapiSource::Url(b)) => same_text(a.as_str(), b.as_str()),
            _ => false,
        }
    }
}

impl vstd::std_specs::cmp::PartialEqSpecImpl for OpenapiSource {
    open spec fn obeys_eq_spec() -> bool {
        true
    }

    open spec fn eq_spec(&self, other: &OpenapiSource) -> bool {
        self@ == other@
    }
}

impl Eq for OpenapiSource {}

impl PartialEq for Runtime {
    fn eq(&self, other: &Runtime) -> (same: bool) {
        self.openapi_source == other.openapi_source
            && same_text(self.app_base_url.as_str(), other.app_base_url.as_str())
            && self.port == other.port
    }
}

impl vstd::std_specs::cmp::PartialEqSpecImpl for Runtime {
    open spec fn obeys_eq_spec() -> bool {
        true
    }

    open spec fn eq_spec(&self, other: &Runtime) -> bool {
        self@ == other@
    }
}

impl Eq for Runtime {}

} // verus!
