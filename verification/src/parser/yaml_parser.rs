//! The endpoints that an OpenAPI document in YAML declares.

use std::sync::Arc;
use vstd::prelude::*;
use vstd::string::StringExecFns;
use std::collections::HashMap;
use std::str::Chars;
use yaml_rust::parser::Parser;
use yaml_rust::Event;
use yaml_rust::Yaml;
use yaml_rust::YamlLoader;
use crate::config::share;
use crate::config::Runtime;
use crate::config::RuntimeView;
use crate::models::endpoint::records;
use crate::models::endpoint::EndpointConfiguration;
use crate::models::endpoint::EndpointRecord;
use crate::models::endpoint::EndpointView;
use crate::models::misc::uppercase;
use crate::models::misc::Method;
use crate::parser::common::basepath_formatted;
use crate::parser::common::format_basepath;
use crate::parser::json_parser::endpoints_view;
use crate::utils::error::Error;
use crate::utils::error::ErrorView;
use crate::utils::text::parse_u16;
use crate::utils::text::same_text;
use crate::utils::text::spelled_u16;

verus! {

/// A value of the `yaml_rust` crate: it is carried around, and looked into
/// through the functions below only.
#[verifier::external_type_specification]
#[verifier::external_body]
pub struct ExYaml(Yaml);

/// What a YAML value holds, as far as it is read here: a text, the entries
/// of a mapping in the order in which the mapping yields them, or anything
/// else.
pub enum YamlTree {
    Text(Seq<char>),
    Hash(Seq<(YamlTree, YamlTree)>),
    Other,
}

/// What `value` holds.
pub uninterp spec fn yaml_tree(value: Yaml) -> YamlTree;

/// What `YamlLoader::load_from_str` makes of `text`: what the documents hold
/// that it reads, or `None` where it refuses `text`.
pub uninterp spec fn yaml_loaded(text: Seq<char>) -> Option<Seq<YamlTree>>;

/// What each of `documents` holds, in their order.
pub open spec fn document_trees(documents: Seq<Yaml>) -> Seq<YamlTree> {
    documents.map_values(|document: Yaml| yaml_tree(document))
}

/// What `entries` hold, in their order.
pub open spec fn pair_trees(entries: Seq<(&Yaml, &Yaml)>) -> Seq<(YamlTree, YamlTree)> {
    entries.map_values(|entry: (&Yaml, &Yaml)| (yaml_tree(*entry.0), yaml_tree(*entry.1)))
}

/// The value of the first of the entries from the `from`-th on whose key is
/// the text `key`, if there is one.
pub open spec fn value_among(entries: Seq<(YamlTree, YamlTree)>, key: Seq<char>, from: int) -> Option<
    YamlTree,
>
    decreases entries.len() - from,
{
    if from < 0 || from >= entries.len() {
        None
    } else if entries[from].0 == YamlTree::Text(key) {
        Some(entries[from].1)
    } else {
        value_among(entries, key, from + 1)
    }
}

/// What a mapping with `entries` holds under the text `key`, if it has such
/// a key.
pub open spec fn value_under(entries: Seq<(YamlTree, YamlTree)>, key: Seq<char>) -> Option<YamlTree> {
    value_among(entries, key, 0)
}

/// The parser of the `yaml_rust` crate, which yields the events of a text one
/// by one: it is carried around, and used through the functions below only.
#[verifier::external_type_specification]
#[verifier::external_body]
#[verifier::reject_recursive_types(T)]
pub struct ExParser<T>(Parser<T>);

/// What an event of a document does to the nesting, with the anchor of the
/// node that it begins, or that an alias stands for; no node has the anchor
/// 0.
#[derive(Debug, Clone, Copy, PartialEq, Eq, Structural)]
pub enum EventKind {
    /// A sequence or a mapping begins.
    Opens(usize),
    /// A sequence or a mapping ends.
    Closes,
    /// A scalar.
    Scalar(usize),
    /// An alias, which stands for the node with its anchor.
    Alias(usize),
    /// Anything else within the text.
    Other,
    /// The text has ended, or is refused from here on.
    Finished,
}

/// The deepest nesting of sequences and mappings that the loader is asked to
/// follow. It follows the nesting with its stack.
pub const MAX_NESTING: usize = 256;

/// The largest number of nodes that the loader is asked to copy. It copies a
/// node that has an anchor, and copies it again for each of its aliases.
pub const MAX_COPIED: u64 = 1_000_000;

/// The largest number of nodes that a sequence or a mapping is counted to
/// hold.
pub const MAX_SIZE: u64 = 1_000_000_000_000;

/// What the events that `Parser::next` yields for `text` do to the nesting,
/// in their order, up to the end of the text or to the first refusal.
pub uninterp spec fn yaml_events(text: Seq<char>) -> Seq<EventKind>;

/// The events that `parser` has yet to yield.
pub uninterp spec fn events_left(parser: Parser<Chars<'_>>) -> Seq<EventKind>;

/// Whether `events` end with the one that finishes them, and hold no other
/// that does.
pub open spec fn ends_finished(events: Seq<EventKind>) -> bool {
    &&& events.len() > 0
    &&& events.last() is Finished
    &&& forall|k: int| 0 <= k < events.len() - 1 ==> !(#[trigger] events[k] is Finished)
}

/// What the loader has before it while it walks the events of a text.
pub struct Loading {
    /// For each sequence and mapping that has begun and not ended, from the
    /// outermost on, the number of nodes in it so far, itself among them.
    pub sizes: Seq<nat>,
    /// The anchors of these sequences and mappings.
    pub anchors: Seq<usize>,
    /// For each anchor of a node that has ended, the number of its nodes.
    pub known: Map<usize, nat>,
    /// The number of nodes that were copied.
    pub copied: nat,
}

/// `sizes`, with `by` more nodes in the innermost.
pub open spec fn grown(sizes: Seq<nat>, by: nat) -> Seq<nat> {
    if sizes.len() > 0 {
        sizes.update(sizes.len() - 1, sizes.last() + by)
    } else {
        sizes
    }
}

/// The state after a node of `size` nodes with the anchor `anchor` has ended:
/// it belongs to what is around it, and where it has an anchor it is copied
/// and known by it.
pub open spec fn ended(loading: Loading, anchor: usize, size: nat) -> Loading {
    Loading {
        sizes: grown(loading.sizes, size),
        anchors: loading.anchors,
        known: if anchor > 0 {
            loading.known.insert(anchor, size)
        } else {
            loading.known
        },
        copied: if anchor > 0 {
            loading.copied + size
        } else {
            loading.copied
        },
    }
}

/// The number of nodes that an alias of `anchor` copies: those of the node
/// that is known by the anchor, and one where none is.
pub open spec fn alias_size(loading: Loading, anchor: usize) -> nat {
    if loading.known.contains_key(anchor) {
        loading.known[anchor]
    } else {
        1
    }
}

/// The state after `event`.
pub open spec fn loading_step(loading: Loading, event: EventKind) -> Loading {
    match event {
        EventKind::Opens(anchor) => Loading {
            sizes: loading.sizes.push(1),
            anchors: loading.anchors.push(anchor),
            ..loading
        },
        EventKind::Closes => if loading.sizes.len() > 0 && loading.anchors.len() > 0 {
            ended(
                Loading {
                    sizes: loading.sizes.drop_last(),
                    anchors: loading.anchors.drop_last(),
                    ..loading
                },
                loading.anchors.last(),
                loading.sizes.last(),
            )
        } else {
            loading
        },
        EventKind::Scalar(anchor) => ended(loading, anchor, 1),
        EventKind::Alias(anchor) => Loading {
            sizes: grown(loading.sizes, alias_size(loading, anchor)),
            copied: loading.copied + alias_size(loading, anchor),
            ..loading
        },
        _ => loading,
    }
}

/// The state after the first `n` of `events`.
pub open spec fn loading_after(events: Seq<EventKind>, n: int) -> Loading
    decreases n,
{
    if n <= 0 {
        Loading { sizes: Seq::empty(), anchors: Seq::empty(), known: Map::empty(), copied: 0 }
    } else {
        loading_step(loading_after(events, n - 1), events[n - 1])
    }
}

/// Whether the loader is asked for no more than it can do: the nesting is no
/// deeper than [`MAX_NESTING`], no more than [`MAX_COPIED`] nodes were
/// copied, and the innermost sequence or mapping holds no more than
/// [`MAX_SIZE`].
pub open spec fn is_bearable(loading: Loading) -> bool {
    &&& loading.sizes.len() <= MAX_NESTING
    &&& loading.copied <= MAX_COPIED
    &&& loading.sizes.len() > 0 ==> loading.sizes.last() <= MAX_SIZE
}

/// Whether the loader is asked for no more than it can do during the first
/// `n` of `events`.
pub open spec fn stays_bearable(events: Seq<EventKind>, n: int) -> bool
    decreases n,
{
    if n <= 0 {
        true
    } else {
        stays_bearable(events, n - 1) && is_bearable(loading_after(events, n))
    }
}

/// Whether the sequences and mappings of `text` nest no deeper than
/// [`MAX_NESTING`], and its anchors and aliases have no more than
/// [`MAX_COPIED`] nodes copied.
pub open spec fn nests_within_bounds(text: Seq<char>) -> bool {
    stays_bearable(yaml_events(text), yaml_events(text).len() as int)
}

/// Calls `Parser::new` on the characters of `text`. The contract only gives
/// the events that the parser will yield their name, [`yaml_events`], and
/// says that they come to an end.
#[verifier::external_body]
fn begin_events<'a>(text: &'a str) -> (parser: Parser<Chars<'a>>)
    ensures
        events_left(parser) == yaml_events(text@),
        ends_finished(events_left(parser)),
{
    Parser::new(text.chars())
}

/// Calls `Parser::next`, which walks on to the next event without a call of
/// itself: the event is the first of those that were left. The end of the
/// text and a refusal both finish the events.
#[verifier::external_body]
fn next_event(parser: &mut Parser<Chars<'_>>) -> (kind: EventKind)
    requires
        events_left(*old(parser)).len() > 0,
    ensures
        kind == events_left(*old(parser))[0],
        events_left(*final(parser)) == events_left(*old(parser)).drop_first(),
{
    match parser.next() {
        Ok((Event::SequenceStart(anchor), _)) | Ok((Event::MappingStart(anchor), _)) => EventKind::Opens(anchor),
        Ok((Event::SequenceEnd, _)) | Ok((Event::MappingEnd, _)) => EventKind::Closes,
        Ok((Event::Scalar(_, _, anchor, _), _)) => EventKind::Scalar(anchor),
        Ok((Event::Alias(anchor), _)) => EventKind::Alias(anchor),
        Ok((Event::StreamEnd, _)) | Err(_) => EventKind::Finished,
        Ok(_) => EventKind::Other,
    }
}

/// Once too much was asked, too much was asked.
proof fn lemma_unbearable_stays(events: Seq<EventKind>, k: int, n: int)
    requires
        0 <= k <= n,
        !stays_bearable(events, k),
    ensures
        !stays_bearable(events, n),
    decreases n - k,
{
    if k < n {
        lemma_unbearable_stays(events, k, n - 1);
    }
}

/// Whether what the walk holds is `loading`.
pub open spec fn holds_loading(
    loading: Loading,
    sizes: Seq<u64>,
    anchors: Seq<usize>,
    known: Map<usize, u64>,
    copied: u64,
) -> bool {
    &&& sizes.len() == loading.sizes.len()
    &&& forall|i: int| 0 <= i < sizes.len() ==> (#[trigger] sizes[i]) as nat == loading.sizes[i]
    &&& forall|i: int| 0 <= i < sizes.len() ==> (#[trigger] sizes[i]) <= MAX_SIZE
    &&& anchors == loading.anchors
    &&& anchors.len() == sizes.len()
    &&& known.dom() == loading.known.dom()
    &&& forall|anchor: usize| #[trigger]
        known.contains_key(anchor) ==> known[anchor] as nat == loading.known[anchor] && known[anchor]
            <= MAX_SIZE
    &&& copied as nat == loading.copied
}

/// Adds `by` nodes to the innermost of `sizes`.
fn grow(sizes: &mut Vec<u64>, by: u64)
    requires
        by <= MAX_SIZE,
        forall|i: int| 0 <= i < old(sizes)@.len() ==> (#[trigger] old(sizes)@[i]) <= MAX_SIZE,
    ensures
        final(sizes)@.len() == old(sizes)@.len(),
        forall|i: int| 0 <= i < old(sizes)@.len() - 1 ==> final(sizes)@[i] == old(sizes)@[i],
        old(sizes)@.len() > 0 ==> final(sizes)@.last() == old(sizes)@.last() + by,
{
    let length = sizes.len();
    if length > 0 {
        let innermost = sizes[length - 1];
        sizes[length - 1] = innermost + by;
    }
}

/// Whether the sequences and mappings of `text` nest no deeper than
/// [`MAX_NESTING`], and its anchors and aliases have no more than
/// [`MAX_COPIED`] nodes copied.
pub fn is_nested_within_bounds(text: &str) -> (within: bool)
    ensures
        within == nests_within_bounds(text@),
{
    broadcast use vstd::std_specs::hash::group_hash_axioms;

    let mut parser = begin_events(text);
    let ghost all = yaml_events(text@);
    let ghost mut seen: int = 0;
    let mut sizes: Vec<u64> = Vec::new();
    let mut anchors: Vec<usize> = Vec::new();
    let mut known: HashMap<usize, u64> = HashMap::new();
    let mut copied: u64 = 0;
    proof {
        assert(known@.dom() =~= loading_after(all, 0).known.dom());
    }
    loop
        invariant
            all == yaml_events(text@),
            ends_finished(all),
            0 <= seen < all.len(),
            events_left(parser) == all.skip(seen),
            holds_loading(loading_after(all, seen), sizes@, anchors@, known@, copied),
            is_bearable(loading_after(all, seen)),
            stays_bearable(all, seen),
        decreases all.len() - seen,
    {
        let ghost before = loading_after(all, seen);
        let ghost after = loading_after(all, seen + 1);
        let ghost old_sizes = sizes@;
        let ghost old_known = known@;
        assert(all.skip(seen)[0] == all[seen]);
        let kind = next_event(&mut parser);
        proof {
            assert(all.skip(seen).drop_first() =~= all.skip(seen + 1));
            assert(after == loading_step(before, kind));
        }
        match kind {
            EventKind::Finished => {
                assert(seen == all.len() - 1);
                return true;
            },
            EventKind::Opens(anchor) => {
                if sizes.len() >= MAX_NESTING {
                    proof {
                        lemma_unbearable_stays(all, seen + 1, all.len() as int);
                    }
                    return false;
                }
                sizes.push(1);
                anchors.push(anchor);
            },
            EventKind::Closes => {
                if sizes.len() > 0 {
                    let size = sizes[sizes.len() - 1];
                    let anchor = anchors[anchors.len() - 1];
                    sizes.pop();
                    anchors.pop();
                    grow(&mut sizes, size);
                    if anchor > 0 {
                        known.insert(anchor, size);
                        copied = copied + size;
                    }
                    proof {
                        assert(sizes@.len() == after.sizes.len());
                        assert(known@.dom() =~= after.known.dom());
                    }
                }
            },
            EventKind::Scalar(anchor) => {
                grow(&mut sizes, 1);
                if anchor > 0 {
                    known.insert(anchor, 1);
                    copied = copied + 1;
                }
                proof {
                    assert(known@.dom() =~= after.known.dom());
                }
            },
            EventKind::Alias(anchor) => {
                let size = match known.get(&anchor) {
                    Some(size) => *size,
                    None => 1,
                };
                assert(size as nat == alias_size(before, anchor));
                grow(&mut sizes, size);
                copied = copied + size;
            },
            EventKind::Other => {},
        }
        let bearable = copied <= MAX_COPIED && (sizes.len() == 0 || sizes[sizes.len() - 1] <= MAX_SIZE);
        proof {
            assert(sizes@.len() == after.sizes.len());
            assert(anchors@ =~= after.anchors);
            assert(copied as nat == after.copied);
            assert forall|i: int| 0 <= i < sizes@.len() implies (#[trigger] sizes@[i]) as nat
                == after.sizes[i] by {
                if i < old_sizes.len() {
                    assert(old_sizes[i] as nat == before.sizes[i]);
                }
            }
            assert(bearable == is_bearable(after));
        }
        if !bearable {
            proof {
                lemma_unbearable_stays(all, seen + 1, all.len() as int);
            }
            return false;
        }
        proof {
            assert forall|i: int| 0 <= i < sizes@.len() implies (#[trigger] sizes@[i]) <= MAX_SIZE by {
                if i < sizes@.len() - 1 && i < old_sizes.len() {
                    assert(old_sizes[i] <= MAX_SIZE);
                }
            }
            assert forall|anchor: usize| #[trigger] known@.contains_key(anchor) implies known@[anchor] as nat
                == after.known[anchor] && known@[anchor] <= MAX_SIZE by {
                if old_known.contains_key(anchor) {
                    assert(old_known[anchor] as nat == before.known[anchor]);
                }
            }
            seen = seen + 1;
        }
    }
}

/// Calls `YamlLoader::load_from_str`. The contract only gives the outcome
/// its name, [`yaml_loaded`]: which texts are YAML is not stated here.
///
/// The loader walks the events of the text with a call of itself for each
/// sequence and each mapping that begins, and so follows the nesting with
/// its stack. It copies each node that has an anchor, and copies it again
/// for each alias of it, so that aliases of aliases multiply its work. Texts
/// that ask for more than [`MAX_NESTING`] or [`MAX_COPIED`] allow are left
/// out.
#[verifier::external_body]
fn yaml_load(text: &str) -> (loaded: Option<Vec<Yaml>>)
    requires
        nests_within_bounds(text@),
    ensures
        match loaded {
            Some(documents) => yaml_loaded(text@) == Some(document_trees(documents@)),
            None => yaml_loaded(text@) is None,
        },
{
    YamlLoader::load_from_str(text).ok()
}

/// Calls `Yaml::as_str`: the text of a string, and `None` for any other
/// value.
#[verifier::external_body]
fn yaml_as_str<'a>(value: &'a Yaml) -> (text: Option<&'a str>)
    ensures
        match text {
            Some(text) => yaml_tree(*value) == YamlTree::Text(text@),
            None => !(yaml_tree(*value) is Text),
        },
{
    value.as_str()
}

/// Calls `Yaml::as_hash`, and `LinkedHashMap::iter` on the mapping that it
/// gives: the keys and values of a mapping in the order in which it yields
/// them, and `None` for any other value.
#[verifier::external_body]
fn yaml_entries<'a>(value: &'a Yaml) -> (entries: Option<Vec<(&'a Yaml, &'a Yaml)>>)
    ensures
        match entries {
            Some(entries) => yaml_tree(*value) == YamlTree::Hash(pair_trees(entries@)),
            None => !(yaml_tree(*value) is Hash),
        },
{
    match value.as_hash() {
        Some(hash) => Some(hash.iter().collect()),
        None => None,
    }
}

/// The endpoint of `method`, `path` and `status_code` for `runtime`.
pub open spec fn listed(
    method: Method,
    path: Seq<char>,
    status_code: u16,
    runtime: RuntimeView,
    is_generated: bool,
) -> EndpointRecord {
    EndpointRecord { endpoint: EndpointView { method, path, status_code, runtime }, is_generated }
}

/// The endpoints of the first `n` of `statuses`, whose keys are texts that
/// spell status codes; a key that is no text is refused as bad syntax, and a
/// text that spells no status code with that text.
pub open spec fn status_endpoints(
    statuses: Seq<(YamlTree, YamlTree)>,
    n: int,
    method: Method,
    path: Seq<char>,
    runtime: RuntimeView,
) -> Result<Seq<EndpointRecord>, ErrorView>
    decreases n,
{
    if n <= 0 {
        Ok(Seq::empty())
    } else {
        match status_endpoints(statuses, n - 1, method, path, runtime) {
            Err(error) => Err(error),
            Ok(before) => match statuses[n - 1].0 {
                YamlTree::Text(key) => match spelled_u16(key) {
                    Some(status_code) => Ok(before.push(listed(method, path, status_code, runtime, false))),
                    None => Err(ErrorView::InvalidParseStatusCode(key)),
                },
                _ => Err(ErrorView::InvalidParseSyntax),
            },
        }
    }
}

/// The endpoints of the operation under `method_key` of the path `path`,
/// which stands under the key `path_key`.
///
/// The key is a text that names a method, in capitals or not, and the
/// operation is a mapping with a mapping of `responses`. Where it has an
/// entry `security`, generated endpoints for the status codes 401 and 403
/// come first, then one endpoint for each response.
pub open spec fn method_endpoints(
    method_key: YamlTree,
    operation: YamlTree,
    path_key: Seq<char>,
    path: Seq<char>,
    runtime: RuntimeView,
) -> Result<Seq<EndpointRecord>, ErrorView> {
    match method_key {
        YamlTree::Text(name) => match Method::named(uppercase(name)) {
            None => Err(ErrorView::InvalidParseMethod(path_key)),
            Some(method) => match operation {
                YamlTree::Hash(infos) => match value_under(infos, "responses"@) {
                    None => Err(ErrorView::UnknownInternalError("yaml spec parent should exist"@)),
                    Some(YamlTree::Hash(statuses)) => {
                        let secured = if value_under(infos, "security"@) is Some {
                            seq![
                                listed(method, path, 401, runtime, true),
                                listed(method, path, 403, runtime, true),
                            ]
                        } else {
                            Seq::empty()
                        };
                        match status_endpoints(statuses, statuses.len() as int, method, path, runtime) {
                            Err(error) => Err(error),
                            Ok(declared) => Ok(secured + declared),
                        }
                    },
                    Some(_) => Err(ErrorView::InvalidParseSyntax),
                },
                _ => Err(ErrorView::InvalidParseSyntax),
            },
        },
        _ => Err(ErrorView::InvalidParseSyntax),
    }
}

/// The endpoints of the first `n` of the operations `methods` of a path.
pub open spec fn methods_endpoints(
    methods: Seq<(YamlTree, YamlTree)>,
    n: int,
    path_key: Seq<char>,
    path: Seq<char>,
    runtime: RuntimeView,
) -> Result<Seq<EndpointRecord>, ErrorView>
    decreases n,
{
    if n <= 0 {
        Ok(Seq::empty())
    } else {
        match methods_endpoints(methods, n - 1, path_key, path, runtime) {
            Err(error) => Err(error),
            Ok(before) => match method_endpoints(methods[n - 1].0, methods[n - 1].1, path_key, path, runtime) {
                Err(error) => Err(error),
                Ok(declared) => Ok(before + declared),
            },
        }
    }
}

/// The endpoints of the path item `item` under `key`: the key is a text,
/// which follows the base path, and the item is a mapping of operations.
pub open spec fn path_endpoints(
    key: YamlTree,
    item: YamlTree,
    base_path: Seq<char>,
    runtime: RuntimeView,
) -> Result<Seq<EndpointRecord>, ErrorView> {
    match (key, item) {
        (YamlTree::Text(key), YamlTree::Hash(methods)) => methods_endpoints(
            methods,
            methods.len() as int,
            key,
            base_path + key,
            runtime,
        ),
        _ => Err(ErrorView::InvalidParseSyntax),
    }
}

/// The endpoints of the first `n` of the path items `paths`.
pub open spec fn paths_endpoints(
    paths: Seq<(YamlTree, YamlTree)>,
    n: int,
    base_path: Seq<char>,
    runtime: RuntimeView,
) -> Result<Seq<EndpointRecord>, ErrorView>
    decreases n,
{
    if n <= 0 {
        Ok(Seq::empty())
    } else {
        match paths_endpoints(paths, n - 1, base_path, runtime) {
            Err(error) => Err(error),
            Ok(before) => match path_endpoints(paths[n - 1].0, paths[n - 1].1, base_path, runtime) {
                Err(error) => Err(error),
                Ok(declared) => Ok(before + declared),
            },
        }
    }
}

/// The endpoints that the document `document` declares for `runtime`.
///
/// The document is a mapping. Its base path is the text under `basePath`,
/// without a `/` at its end, and empty where there is no such key; anything
/// but a text there is refused. Its `paths` are a mapping.
pub open spec fn mapping_endpoints(document: YamlTree, runtime: RuntimeView) -> Result<
    Seq<EndpointRecord>,
    ErrorView,
> {
    match document {
        YamlTree::Hash(entries) => {
            let base_path = match value_under(entries, "basePath"@) {
                None => Some(Seq::<char>::empty()),
                Some(YamlTree::Text(text)) => Some(text),
                Some(_) => None,
            };
            match base_path {
                None => Err(ErrorView::InvalidBasePath),
                Some(base_path) => match value_under(entries, "paths"@) {
                    Some(YamlTree::Hash(paths)) => paths_endpoints(
                        paths,
                        paths.len() as int,
                        basepath_formatted(base_path),
                        runtime,
                    ),
                    _ => Err(ErrorView::InvalidParseSyntax),
                },
            }
        },
        _ => Err(ErrorView::UnknownInternalError("yaml spec can't be serialized"@)),
    }
}

/// The endpoints that the first of the YAML documents `loaded` declares for
/// `runtime`; a text that is no YAML, or holds no document, is refused.
pub open spec fn yaml_endpoints(loaded: Option<Seq<YamlTree>>, runtime: RuntimeView) -> Result<
    Seq<EndpointRecord>,
    ErrorView,
> {
    match loaded {
        None => Err(ErrorView::InvalidParseSyntax),
        Some(documents) => if documents.len() == 0 {
            Err(ErrorView::InvalidParseSyntax)
        } else {
            mapping_endpoints(documents[0], runtime)
        },
    }
}

/// The endpoints that the YAML document `text` declares for `runtime`; a
/// text that nests its sequences and mappings too deeply, or has too much
/// copied through its aliases, is refused like one that is no YAML.
pub open spec fn yaml_text_endpoints(text: Seq<char>, runtime: RuntimeView) -> Result<
    Seq<EndpointRecord>,
    ErrorView,
> {
    if nests_within_bounds(text) {
        yaml_endpoints(yaml_loaded(text), runtime)
    } else {
        Err(ErrorView::InvalidParseSyntax)
    }
}

/// A refusal among the first responses is the refusal of all.
proof fn lemma_status_refusal_stays(
    statuses: Seq<(YamlTree, YamlTree)>,
    k: int,
    n: int,
    method: Method,
    path: Seq<char>,
    runtime: RuntimeView,
)
    requires
        0 <= k <= n,
        status_endpoints(statuses, k, method, path, runtime) is Err,
    ensures
        status_endpoints(statuses, n, method, path, runtime) == status_endpoints(
            statuses,
            k,
            method,
            path,
            runtime,
        ),
    decreases n - k,
{
    if k < n {
        lemma_status_refusal_stays(statuses, k, n - 1, method, path, runtime);
    }
}

/// A refusal among the first operations is the refusal of all.
proof fn lemma_methods_refusal_stays(
    methods: Seq<(YamlTree, YamlTree)>,
    k: int,
    n: int,
    path_key: Seq<char>,
    path: Seq<char>,
    runtime: RuntimeView,
)
    requires
        0 <= k <= n,
        methods_endpoints(methods, k, path_key, path, runtime) is Err,
    ensures
        methods_endpoints(methods, n, path_key, path, runtime) == methods_endpoints(
            methods,
            k,
            path_key,
            path,
            runtime,
        ),
    decreases n - k,
{
    if k < n {
        lemma_methods_refusal_stays(methods, k, n - 1, path_key, path, runtime);
    }
}

/// A refusal among the first path items is the refusal of all.
proof fn lemma_paths_refusal_stays(
    paths: Seq<(YamlTree, YamlTree)>,
    k: int,
    n: int,
    base_path: Seq<char>,
    runtime: RuntimeView,
)
    requires
        0 <= k <= n,
        paths_endpoints(paths, k, base_path, runtime) is Err,
    ensures
        paths_endpoints(paths, n, base_path, runtime) == paths_endpoints(paths, k, base_path, runtime),
    decreases n - k,
{
    if k < n {
        lemma_paths_refusal_stays(paths, k, n - 1, base_path, runtime);
    }
}

/// The value that `entries` hold under the text `key`, if there is one.
fn find_value<'a>(entries: &Vec<(&'a Yaml, &'a Yaml)>, key: &str) -> (value: Option<&'a Yaml>)
    ensures
        match value {
            Some(value) => value_under(pair_trees(entries@), key@) == Some(yaml_tree(*value)),
            None => value_under(pair_trees(entries@), key@) is None,
        },
{
    let ghost all = pair_trees(entries@);
    let mut k: usize = 0;
    while k < entries.len()
        invariant
            k <= entries@.len(),
            all == pair_trees(entries@),
            value_among(all, key@, k as int) == value_under(all, key@),
        decreases entries@.len() - k,
    {
        assert(all[k as int] == (yaml_tree(*entries@[k as int].0), yaml_tree(*entries@[k as int].1)));
        match yaml_as_str(entries[k].0) {
            Some(text) => {
                if same_text(text, key) {
                    return Some(entries[k].1);
                }
            },
            None => {},
        }
        k += 1;
    }
    None
}

/// Adds to `endpoints` the endpoint of `method`, `path` and `status_code`.
fn push_listed(
    endpoints: &mut Vec<EndpointConfiguration>,
    method: Method,
    path: &str,
    status_code: u16,
    runtime: &Arc<Runtime>,
    is_generated: bool,
)
    ensures
        records(final(endpoints)@) == records(old(endpoints)@).push(
            listed(method, path@, status_code, runtime@, is_generated),
        ),
{
    let ghost before = records(endpoints@);
    match EndpointConfiguration::new(method, path, status_code, share(runtime), is_generated) {
        Ok(endpoint) => {
            endpoints.push(endpoint);
            assert(records(endpoints@) =~= before.push(
                listed(method, path@, status_code, runtime@, is_generated),
            ));
        },
        Err(_) => {
            assert(false);
        },
    }
}

/// Adds to `endpoints` the endpoints of the operation under `method_key`.
fn push_method(
    endpoints: &mut Vec<EndpointConfiguration>,
    method_key: &Yaml,
    operation: &Yaml,
    path_key: &str,
    path: &str,
    runtime: &Arc<Runtime>,
) -> (pushed: Result<(), Error>)
    ensures
        match pushed {
            Ok(_) => method_endpoints(
                yaml_tree(*method_key),
                yaml_tree(*operation),
                path_key@,
                path@,
                runtime@,
            ) matches Ok(added) && records(final(endpoints)@) == records(old(endpoints)@) + added,
            Err(error) => method_endpoints(
                yaml_tree(*method_key),
                yaml_tree(*operation),
                path_key@,
                path@,
                runtime@,
            ) == Err::<Seq<EndpointRecord>, ErrorView>(error@),
        },
{
    let ghost start = records(endpoints@);
    let name = match yaml_as_str(method_key) {
        Some(name) => name,
        None => {
            return Err(Error::InvalidParseSyntax);
        },
    };
    let method = match Method::from_str(name) {
        Some(method) => method,
        None => {
            return Err(Error::InvalidParseMethod(String::from_str(path_key)));
        },
    };
    let method_infos = match yaml_entries(operation) {
        Some(method_infos) => method_infos,
        None => {
            return Err(Error::InvalidParseSyntax);
        },
    };
    let statuses = match find_value(&method_infos, "responses") {
        Some(responses) => match yaml_entries(responses) {
            Some(statuses) => statuses,
            None => {
                return Err(Error::InvalidParseSyntax);
            },
        },
        None => {
            return Err(Error::UnknownInternalError(String::from_str("yaml spec parent should exist")));
        },
    };
    let ghost infos = pair_trees(method_infos@);
    let ghost codes = pair_trees(statuses@);
    if find_value(&method_infos, "security").is_some() {
        push_listed(endpoints, method, path, 401, runtime, true);
        push_listed(endpoints, method, path, 403, runtime, true);
    }
    let ghost secured = if value_under(infos, "security"@) is Some {
        seq![listed(method, path@, 401, runtime@, true), listed(method, path@, 403, runtime@, true)]
    } else {
        Seq::<EndpointRecord>::empty()
    };
    proof {
        assert(records(endpoints@) =~= start + secured);
    }
    let mut k: usize = 0;
    while k < statuses.len()
        invariant
            k <= statuses@.len(),
            codes == pair_trees(statuses@),
            yaml_tree(*method_key) == YamlTree::Text(name@),
            Method::named(uppercase(name@)) == Some(method),
            yaml_tree(*operation) == YamlTree::Hash(infos),
            value_under(infos, "responses"@) == Some(YamlTree::Hash(codes)),
            secured == (if value_under(infos, "security"@) is Some {
                seq![listed(method, path@, 401, runtime@, true), listed(method, path@, 403, runtime@, true)]
            } else {
                Seq::<EndpointRecord>::empty()
            }),
            status_endpoints(codes, k as int, method, path@, runtime@) matches Ok(added) && records(endpoints@)
                == start + secured + added,
        decreases statuses@.len() - k,
    {
        let ghost added = status_endpoints(codes, k as int, method, path@, runtime@)->Ok_0;
        assert(codes[k as int].0 == yaml_tree(*statuses@[k as int].0));
        let key = match yaml_as_str(statuses[k].0) {
            Some(key) => key,
            None => {
                proof {
                    lemma_status_refusal_stays(codes, k + 1, codes.len() as int, method, path@, runtime@);
                }
                return Err(Error::InvalidParseSyntax);
            },
        };
        match parse_u16(key) {
            Some(status_code) => {
                push_listed(endpoints, method, path, status_code, runtime, false);
                proof {
                    let record = listed(method, path@, status_code, runtime@, false);
                    assert(records(endpoints@) =~= start + secured + added.push(record));
                }
            },
            None => {
                proof {
                    lemma_status_refusal_stays(codes, k + 1, codes.len() as int, method, path@, runtime@);
                }
                return Err(Error::InvalidParseStatusCode(String::from_str(key)));
            },
        }
        k += 1;
    }
    proof {
        let added = status_endpoints(codes, codes.len() as int, method, path@, runtime@)->Ok_0;
        assert(start + secured + added =~= start + (secured + added));
    }
    Ok(())
}

/// Adds to `endpoints` the endpoints of the path item `item` under `key`.
fn push_path(
    endpoints: &mut Vec<EndpointConfiguration>,
    key: &Yaml,
    item: &Yaml,
    base_path: &str,
    runtime: &Arc<Runtime>,
) -> (pushed: Result<(), Error>)
    ensures
        match pushed {
            Ok(_) => path_endpoints(yaml_tree(*key), yaml_tree(*item), base_path@, runtime@) matches Ok(added)
                && records(final(endpoints)@) == records(old(endpoints)@) + added,
            Err(error) => path_endpoints(yaml_tree(*key), yaml_tree(*item), base_path@, runtime@) == Err::<
                Seq<EndpointRecord>,
                ErrorView,
            >(error@),
        },
{
    let ghost start = records(endpoints@);
    let path_key = match yaml_as_str(key) {
        Some(path_key) => path_key,
        None => {
            return Err(Error::InvalidParseSyntax);
        },
    };
    let path = String::from_str(base_path).concat(path_key);
    let methods = match yaml_entries(item) {
        Some(methods) => methods,
        None => {
            return Err(Error::InvalidParseSyntax);
        },
    };
    let ghost operations = pair_trees(methods@);
    proof {
        assert(records(endpoints@) =~= start + Seq::<EndpointRecord>::empty());
    }
    let mut k: usize = 0;
    while k < methods.len()
        invariant
            k <= methods@.len(),
            operations == pair_trees(methods@),
            yaml_tree(*key) == YamlTree::Text(path_key@),
            yaml_tree(*item) == YamlTree::Hash(operations),
            path@ == base_path@ + path_key@,
            methods_endpoints(operations, k as int, path_key@, path@, runtime@) matches Ok(added) && records(
                endpoints@,
            ) == start + added,
        decreases methods@.len() - k,
    {
        let ghost added = methods_endpoints(operations, k as int, path_key@, path@, runtime@)->Ok_0;
        assert(operations[k as int] == (yaml_tree(*methods@[k as int].0), yaml_tree(*methods@[k as int].1)));
        match push_method(endpoints, methods[k].0, methods[k].1, path_key, path.as_str(), runtime) {
            Ok(_) => {
                proof {
                    let declared = method_endpoints(
                        operations[k as int].0,
                        operations[k as int].1,
                        path_key@,
                        path@,
                        runtime@,
                    )->Ok_0;
                    assert(start + added + declared =~= start + (added + declared));
                }
            },
            Err(error) => {
                proof {
                    lemma_methods_refusal_stays(
                        operations,
                        k + 1,
                        operations.len() as int,
                        path_key@,
                        path@,
                        runtime@,
                    );
                }
                return Err(error);
            },
        }
        k += 1;
    }
    Ok(())
}

/// The endpoints that the OpenAPI document `yaml_string`, which is written
/// in YAML, declares for `runtime`.
pub fn parse_yaml_doc(yaml_string: &str, runtime: Arc<Runtime>) -> (parsed: Result<
    Vec<EndpointConfiguration>,
    Error,
>)
    ensures
        endpoints_view(parsed) == yaml_text_endpoints(yaml_string@, runtime@),
{
    if !is_nested_within_bounds(yaml_string) {
        return Err(Error::InvalidParseSyntax);
    }
    let documents = match yaml_load(yaml_string) {
        Some(documents) => documents,
        None => {
            return Err(Error::InvalidParseSyntax);
        },
    };
    if documents.len() == 0 {
        return Err(Error::InvalidParseSyntax);
    }
    assert(document_trees(documents@)[0] == yaml_tree(documents@[0]));
    parse_yaml_value(&documents[0], runtime)
}

/// The endpoints that the OpenAPI document `document` declares for
/// `runtime`.
pub fn parse_yaml_value(document: &Yaml, runtime: Arc<Runtime>) -> (parsed: Result<
    Vec<EndpointConfiguration>,
    Error,
>)
    ensures
        endpoints_view(parsed) == mapping_endpoints(yaml_tree(*document), runtime@),
{
    let entries = match yaml_entries(document) {
        Some(entries) => entries,
        None => {
            return Err(Error::UnknownInternalError(String::from_str("yaml spec can't be serialized")));
        },
    };
    let basepath = match find_value(&entries, "basePath") {
        Some(basepath) => match yaml_as_str(basepath) {
            Some(basepath) => basepath,
            None => {
                return Err(Error::InvalidBasePath);
            },
        },
        None => "",
    };
    proof {
        reveal_strlit("");
        assert(""@ =~= Seq::<char>::empty());
    }
    let basepath = format_basepath(basepath);
    let paths = match find_value(&entries, "paths") {
        Some(paths) => match yaml_entries(paths) {
            Some(paths) => paths,
            None => {
                return Err(Error::InvalidParseSyntax);
            },
        },
        None => {
            return Err(Error::InvalidParseSyntax);
        },
    };
    let ghost items = pair_trees(paths@);
    let mut endpoints: Vec<EndpointConfiguration> = Vec::new();
    proof {
        assert(records(endpoints@) =~= Seq::empty());
    }
    let mut k: usize = 0;
    while k < paths.len()
        invariant
            k <= paths@.len(),
            items == pair_trees(paths@),
            mapping_endpoints(yaml_tree(*document), runtime@) == paths_endpoints(
                items,
                items.len() as int,
                basepath@,
                runtime@,
            ),
            paths_endpoints(items, k as int, basepath@, runtime@) == Ok::<Seq<EndpointRecord>, ErrorView>(
                records(endpoints@),
            ),
        decreases paths@.len() - k,
    {
        let ghost before = records(endpoints@);
        assert(items[k as int] == (yaml_tree(*paths@[k as int].0), yaml_tree(*paths@[k as int].1)));
        match push_path(&mut endpoints, paths[k].0, paths[k].1, basepath, &runtime) {
            Ok(_) => {},
            Err(error) => {
                proof {
                    lemma_paths_refusal_stays(items, k + 1, items.len() as int, basepath@, runtime@);
                }
                return Err(error);
            },
        }
        k += 1;
    }
    Ok(endpoints)
}

} // verus!
