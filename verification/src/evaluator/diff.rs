//! The comparison of two lists of endpoints: what one holds and the other
//! does not.
//!
//! Each list is put in order and stripped of duplicates, then what the other
//! list holds as well is removed from it. What remains of the first list,
//! followed by what remains of the second, is the residual. It is empty
//! exactly when the two lists hold the same endpoints, in whatever order and
//! however often.

use vstd::prelude::*;
use crate::config::lemma_runtime_order_is_total;
use crate::config::lemma_runtime_order_is_transitive;
use crate::evaluator::compare::as_ints;
use crate::evaluator::compare::endpoints_at;
use crate::evaluator::compare::holds_endpoint;
use crate::evaluator::compare::referents;
use crate::evaluator::compare::views;
use crate::models::endpoint::EndpointConfiguration;
use crate::models::endpoint::EndpointView;
use crate::utils::text::comes_before;
use crate::utils::text::lemma_text_order_is_total;
use crate::utils::text::lemma_text_order_is_transitive;
use crate::utils::text::text_before;

verus! {

/// Whether `a` comes before `b`: by the method, in the order in which the
/// methods are declared, then by the path as it was written, in the order of
/// the dictionary, then by the status code, then by the service.
pub open spec fn before(a: EndpointView, b: EndpointView) -> bool {
    ||| a.method.rank() < b.method.rank()
    ||| a.method == b.method && text_before(a.path, b.path)
    ||| a.method == b.method && a.path == b.path && a.status_code < b.status_code
    ||| a.method == b.method && a.path == b.path && a.status_code == b.status_code && a.runtime.before(
        b.runtime,
    )
}

/// Of two different endpoints one comes before the other, and never both.
pub proof fn lemma_order_is_total(a: EndpointView, b: EndpointView)
    ensures
        a != b ==> before(a, b) || before(b, a),
        !(before(a, b) && before(b, a)),
        !before(a, a),
{
    lemma_text_order_is_total(a.path, b.path, 0);
    lemma_text_order_is_total(a.path, a.path, 0);
    lemma_runtime_order_is_total(a.runtime, b.runtime);
    lemma_runtime_order_is_total(a.runtime, a.runtime);
}

/// The order of the endpoints is transitive.
pub proof fn lemma_order_is_transitive(a: EndpointView, b: EndpointView, c: EndpointView)
    requires
        before(a, b),
        before(b, c),
    ensures
        before(a, c),
{
    lemma_order_is_total(a, b);
    lemma_order_is_total(b, c);
    if a.method == b.method && b.method == c.method {
        if text_before(a.path, b.path) && text_before(b.path, c.path) {
            lemma_text_order_is_transitive(a.path, b.path, c.path, 0);
        } else if a.path == b.path && b.path == c.path && a.status_code == b.status_code
            && b.status_code == c.status_code {
            lemma_runtime_order_is_transitive(a.runtime, b.runtime, c.runtime);
        }
    }
}

/// The first place from `from` on at which the endpoint that `sorted` points
/// to does not come before `endpoint`, and the length of `sorted` where
/// there is none.
pub open spec fn place(
    endpoints: Seq<EndpointView>,
    sorted: Seq<int>,
    endpoint: EndpointView,
    from: int,
) -> int
    decreases sorted.len() - from,
{
    if from >= sorted.len() {
        sorted.len() as int
    } else if before(endpoints[sorted[from]], endpoint) {
        place(endpoints, sorted, endpoint, from + 1)
    } else {
        from
    }
}

/// `sorted`, with the position `i` put in the place of its endpoint, unless
/// that place holds an endpoint like it already.
pub open spec fn put(endpoints: Seq<EndpointView>, sorted: Seq<int>, i: int) -> Seq<int> {
    let at = place(endpoints, sorted, endpoints[i], 0);
    if at < sorted.len() && endpoints[sorted[at]] == endpoints[i] {
        sorted
    } else {
        sorted.insert(at, i)
    }
}

/// The positions of the first `n` of `endpoints`, put in the order of their
/// endpoints, each kind of endpoint at its first position only.
pub open spec fn rising(endpoints: Seq<EndpointView>, n: int) -> Seq<int>
    decreases n,
{
    if n <= 0 {
        Seq::empty()
    } else {
        put(endpoints, rising(endpoints, n - 1), n - 1)
    }
}

/// Of the first `n` of `positions`, in their order, those whose endpoint
/// `others` does not hold.
pub open spec fn without(
    endpoints: Seq<EndpointView>,
    positions: Seq<int>,
    others: Seq<EndpointView>,
    n: int,
) -> Seq<int>
    decreases n,
{
    if n <= 0 {
        Seq::empty()
    } else if others.contains(endpoints[positions[n - 1]]) {
        without(endpoints, positions, others, n - 1)
    } else {
        without(endpoints, positions, others, n - 1).push(positions[n - 1])
    }
}

/// The positions of what `endpoints` holds and `others` does not: in the
/// order of the endpoints, each kind once.
pub open spec fn only_in(endpoints: Seq<EndpointView>, others: Seq<EndpointView>) -> Seq<int> {
    let sorted = rising(endpoints, endpoints.len() as int);
    without(endpoints, sorted, others, sorted.len() as int)
}

/// The residual of `a` and `b`: what only `a` holds, then what only `b`
/// holds.
pub open spec fn residual(a: Seq<EndpointConfiguration>, b: Seq<EndpointConfiguration>) -> Seq<
    EndpointConfiguration,
> {
    endpoints_at(a, only_in(views(a), views(b))) + endpoints_at(b, only_in(views(b), views(a)))
}

/// Whether one of the first `n` of `positions` points to an endpoint like
/// `endpoint`.
pub open spec fn points_to(
    endpoints: Seq<EndpointView>,
    positions: Seq<int>,
    n: int,
    endpoint: EndpointView,
) -> bool {
    exists|k: int| 0 <= k < n && endpoints[#[trigger] positions[k]] == endpoint
}

/// Whether one of the first `n` of `endpoints` is like `endpoint`.
pub open spec fn holds_among(endpoints: Seq<EndpointView>, n: int, endpoint: EndpointView) -> bool {
    exists|i: int| 0 <= i < n && #[trigger] endpoints[i] == endpoint
}

/// The place of an endpoint lies within the list.
proof fn lemma_place_bounds(endpoints: Seq<EndpointView>, sorted: Seq<int>, endpoint: EndpointView, from: int)
    requires
        0 <= from <= sorted.len(),
    ensures
        from <= place(endpoints, sorted, endpoint, from) <= sorted.len(),
    decreases sorted.len() - from,
{
    if from < sorted.len() && before(endpoints[sorted[from]], endpoint) {
        lemma_place_bounds(endpoints, sorted, endpoint, from + 1);
    }
}

/// After a position was put in its place, the list points to what it pointed
/// to before and to the endpoint at that position, and to nothing else.
proof fn lemma_put_points_to(endpoints: Seq<EndpointView>, sorted: Seq<int>, i: int, endpoint: EndpointView)
    ensures
        points_to(endpoints, put(endpoints, sorted, i), put(endpoints, sorted, i).len() as int, endpoint)
            <==> points_to(endpoints, sorted, sorted.len() as int, endpoint) || endpoint == endpoints[i],
{
    let at = place(endpoints, sorted, endpoints[i], 0);
    lemma_place_bounds(endpoints, sorted, endpoints[i], 0);
    let after = put(endpoints, sorted, i);
    if at < sorted.len() && endpoints[sorted[at]] == endpoints[i] {
        if endpoint == endpoints[i] {
            assert(endpoints[sorted[at]] == endpoint);
        }
    } else {
        if points_to(endpoints, after, after.len() as int, endpoint) {
            let k = choose|k: int| 0 <= k < after.len() && endpoints[#[trigger] after[k]] == endpoint;
            if k < at {
                assert(endpoints[sorted[k]] == endpoint);
            } else if k > at {
                assert(endpoints[sorted[k - 1]] == endpoint);
            }
        }
        if points_to(endpoints, sorted, sorted.len() as int, endpoint) {
            let k = choose|k: int| 0 <= k < sorted.len() && endpoints[#[trigger] sorted[k]] == endpoint;
            if k < at {
                assert(endpoints[after[k]] == endpoint);
            } else {
                assert(endpoints[after[k + 1]] == endpoint);
            }
        }
        if endpoint == endpoints[i] {
            assert(endpoints[after[at]] == endpoint);
        }
    }
}

/// The sorted positions point to the endpoints that the list holds, and to
/// nothing else.
proof fn lemma_rising_points_to(endpoints: Seq<EndpointView>, n: int, endpoint: EndpointView)
    requires
        0 <= n <= endpoints.len(),
    ensures
        points_to(endpoints, rising(endpoints, n), rising(endpoints, n).len() as int, endpoint)
            <==> holds_among(endpoints, n, endpoint),
    decreases n,
{
    if n > 0 {
        lemma_rising_points_to(endpoints, n - 1, endpoint);
        lemma_put_points_to(endpoints, rising(endpoints, n - 1), n - 1, endpoint);
        if holds_among(endpoints, n, endpoint) {
            let i = choose|i: int| 0 <= i < n && #[trigger] endpoints[i] == endpoint;
            if i < n - 1 {
                assert(holds_among(endpoints, n - 1, endpoint));
            }
        }
        if holds_among(endpoints, n - 1, endpoint) {
            let i = choose|i: int| 0 <= i < n - 1 && #[trigger] endpoints[i] == endpoint;
            assert(endpoints[i] == endpoint);
        }
        if endpoint == endpoints[n - 1] {
            assert(holds_among(endpoints, n, endpoint));
        }
    }
}

/// What is left points to what the positions pointed to and `others` does
/// not hold, and to nothing else.
proof fn lemma_without_points_to(
    endpoints: Seq<EndpointView>,
    positions: Seq<int>,
    others: Seq<EndpointView>,
    n: int,
    endpoint: EndpointView,
)
    requires
        0 <= n <= positions.len(),
    ensures
        without(endpoints, positions, others, n).len() <= n,
        points_to(
            endpoints,
            without(endpoints, positions, others, n),
            without(endpoints, positions, others, n).len() as int,
            endpoint,
        ) <==> points_to(endpoints, positions, n, endpoint) && !others.contains(endpoint),
    decreases n,
{
    if n > 0 {
        lemma_without_points_to(endpoints, positions, others, n - 1, endpoint);
        let before = without(endpoints, positions, others, n - 1);
        let now = without(endpoints, positions, others, n);
        if points_to(endpoints, now, now.len() as int, endpoint) {
            let k = choose|k: int| 0 <= k < now.len() && endpoints[#[trigger] now[k]] == endpoint;
            if k < before.len() {
                assert(endpoints[before[k]] == endpoint);
                let l = choose|l: int| 0 <= l < n - 1 && endpoints[#[trigger] positions[l]] == endpoint;
                assert(endpoints[positions[l]] == endpoint);
            } else {
                assert(endpoints[positions[n - 1]] == endpoint);
            }
        }
        if points_to(endpoints, positions, n, endpoint) && !others.contains(endpoint) {
            let l = choose|l: int| 0 <= l < n && endpoints[#[trigger] positions[l]] == endpoint;
            if l < n - 1 {
                assert(points_to(endpoints, positions, n - 1, endpoint));
                let k = choose|k: int| 0 <= k < before.len() && endpoints[#[trigger] before[k]] == endpoint;
                assert(endpoints[now[k]] == endpoint);
            } else {
                assert(endpoints[now[now.len() - 1]] == endpoint);
            }
        }
    }
}

/// What only one list holds points to the endpoints that the list holds and
/// the other list does not, and to nothing else.
pub proof fn lemma_only_in_points_to(
    endpoints: Seq<EndpointView>,
    others: Seq<EndpointView>,
    endpoint: EndpointView,
)
    ensures
        points_to(
            endpoints,
            only_in(endpoints, others),
            only_in(endpoints, others).len() as int,
            endpoint,
        ) <==> endpoints.contains(endpoint) && !others.contains(endpoint),
{
    let sorted = rising(endpoints, endpoints.len() as int);
    lemma_rising_points_to(endpoints, endpoints.len() as int, endpoint);
    lemma_without_points_to(endpoints, sorted, others, sorted.len() as int, endpoint);
    if endpoints.contains(endpoint) {
        let i = choose|i: int| 0 <= i < endpoints.len() && endpoints[i] == endpoint;
        assert(holds_among(endpoints, endpoints.len() as int, endpoint));
    }
    if holds_among(endpoints, endpoints.len() as int, endpoint) {
        let i = choose|i: int| 0 <= i < endpoints.len() && #[trigger] endpoints[i] == endpoint;
        assert(endpoints.contains(endpoint));
    }
}

/// Two lists that hold the same endpoints, in whatever order and however
/// often, have an empty residual.
pub proof fn lemma_residual_of_equal_lists_is_empty(
    a: Seq<EndpointConfiguration>,
    b: Seq<EndpointConfiguration>,
)
    requires
        forall|endpoint: EndpointView| views(a).contains(endpoint) <==> views(b).contains(endpoint),
    ensures
        residual(a, b).len() == 0,
{
    let left = only_in(views(a), views(b));
    let right = only_in(views(b), views(a));
    if left.len() > 0 {
        let endpoint = views(a)[left[0]];
        lemma_only_in_points_to(views(a), views(b), endpoint);
        assert(points_to(views(a), left, left.len() as int, endpoint));
    }
    if right.len() > 0 {
        let endpoint = views(b)[right[0]];
        lemma_only_in_points_to(views(b), views(a), endpoint);
        assert(points_to(views(b), right, right.len() as int, endpoint));
    }
}

/// An endpoint that the first list holds and the second does not is part of
/// the residual, which is therefore not empty.
pub proof fn lemma_residual_holds_extra_endpoint(
    a: Seq<EndpointConfiguration>,
    b: Seq<EndpointConfiguration>,
    extra: EndpointView,
)
    requires
        views(a).contains(extra),
        !views(b).contains(extra),
    ensures
        residual(a, b).len() >= 1,
        views(residual(a, b)).contains(extra),
{
    let left = only_in(views(a), views(b));
    lemma_only_in_points_to(views(a), views(b), extra);
    let k = choose|k: int| 0 <= k < left.len() && views(a)[#[trigger] left[k]] == extra;
    lemma_only_in_within(views(a), views(b));
    assert(residual(a, b)[k] == a[left[k]]);
    assert(views(residual(a, b))[k] == extra);
}

/// The positions of what only one list holds are positions of that list.
pub proof fn lemma_only_in_within(endpoints: Seq<EndpointView>, others: Seq<EndpointView>)
    ensures
        forall|k: int|
            0 <= k < only_in(endpoints, others).len() ==> 0 <= #[trigger] only_in(endpoints, others)[k]
                < endpoints.len(),
{
    let sorted = rising(endpoints, endpoints.len() as int);
    lemma_rising_within(endpoints, endpoints.len() as int);
    lemma_without_within(endpoints, sorted, others, sorted.len() as int, endpoints.len() as int);
}

/// The sorted positions of the first `n` endpoints are below `n`.
proof fn lemma_rising_within(endpoints: Seq<EndpointView>, n: int)
    requires
        0 <= n,
    ensures
        forall|k: int| 0 <= k < rising(endpoints, n).len() ==> 0 <= #[trigger] rising(endpoints, n)[k] < n,
    decreases n,
{
    if n > 0 {
        lemma_rising_within(endpoints, n - 1);
        lemma_place_bounds(endpoints, rising(endpoints, n - 1), endpoints[n - 1], 0);
    }
}

/// What is left of positions below a bound is below that bound.
proof fn lemma_without_within(
    endpoints: Seq<EndpointView>,
    positions: Seq<int>,
    others: Seq<EndpointView>,
    n: int,
    bound: int,
)
    requires
        0 <= n <= positions.len(),
        forall|k: int| 0 <= k < positions.len() ==> 0 <= #[trigger] positions[k] < bound,
    ensures
        forall|k: int|
            0 <= k < without(endpoints, positions, others, n).len() ==> 0 <= #[trigger] without(
                endpoints,
                positions,
                others,
                n,
            )[k] < bound,
    decreases n,
{
    if n > 0 {
        lemma_without_within(endpoints, positions, others, n - 1, bound);
        let before = without(endpoints, positions, others, n - 1);
        let now = without(endpoints, positions, others, n);
        assert forall|k: int| 0 <= k < now.len() implies 0 <= #[trigger] now[k] < bound by {
            if k < before.len() {
                assert(now[k] == before[k]);
            } else {
                assert(now[k] == positions[n - 1]);
            }
        }
    }
}

/// Whether the endpoints that `positions` points to rise strictly: each comes
/// before all that follow it, so that none occurs twice.
pub open spec fn strictly_rising(endpoints: Seq<EndpointView>, positions: Seq<int>) -> bool {
    forall|k: int, l: int|
        0 <= k < l < positions.len() ==> before(
            endpoints[#[trigger] positions[k]],
            endpoints[#[trigger] positions[l]],
        )
}

/// In a list that rises strictly, what stands before the place of an
/// endpoint comes before it, and what stands at the place does not.
proof fn lemma_place_splits(endpoints: Seq<EndpointView>, sorted: Seq<int>, endpoint: EndpointView, from: int)
    requires
        0 <= from <= sorted.len(),
    ensures
        forall|k: int|
            from <= k < place(endpoints, sorted, endpoint, from) ==> before(
                endpoints[#[trigger] sorted[k]],
                endpoint,
            ),
        place(endpoints, sorted, endpoint, from) < sorted.len() ==> !before(
            endpoints[sorted[place(endpoints, sorted, endpoint, from)]],
            endpoint,
        ),
    decreases sorted.len() - from,
{
    if from < sorted.len() && before(endpoints[sorted[from]], endpoint) {
        lemma_place_splits(endpoints, sorted, endpoint, from + 1);
    }
}

/// A list that rises strictly still does after a position was put in its
/// place.
proof fn lemma_put_keeps_rising(endpoints: Seq<EndpointView>, sorted: Seq<int>, i: int)
    requires
        strictly_rising(endpoints, sorted),
    ensures
        strictly_rising(endpoints, put(endpoints, sorted, i)),
{
    let endpoint = endpoints[i];
    let at = place(endpoints, sorted, endpoint, 0);
    lemma_place_bounds(endpoints, sorted, endpoint, 0);
    lemma_place_splits(endpoints, sorted, endpoint, 0);
    let after = put(endpoints, sorted, i);
    if !(at < sorted.len() && endpoints[sorted[at]] == endpoint) {
        assert forall|k: int, l: int| 0 <= k < l < after.len() implies before(
            endpoints[#[trigger] after[k]],
            endpoints[#[trigger] after[l]],
        ) by {
            if l < at {
                assert(after[k] == sorted[k] && after[l] == sorted[l]);
            } else if l == at {
                assert(after[k] == sorted[k]);
            } else if k == at {
                assert(after[l] == sorted[l - 1]);
                lemma_order_is_total(endpoints[sorted[at]], endpoint);
                if l - 1 > at {
                    assert(before(endpoints[sorted[at]], endpoints[sorted[l - 1]]));
                    lemma_order_is_transitive(endpoint, endpoints[sorted[at]], endpoints[sorted[l - 1]]);
                }
            } else if k < at {
                assert(after[k] == sorted[k] && after[l] == sorted[l - 1]);
            } else {
                assert(after[k] == sorted[k - 1] && after[l] == sorted[l - 1]);
            }
        }
    }
}

/// The sorted positions rise strictly.
proof fn lemma_rising_rises(endpoints: Seq<EndpointView>, n: int)
    ensures
        strictly_rising(endpoints, rising(endpoints, n)),
    decreases n,
{
    if n > 0 {
        lemma_rising_rises(endpoints, n - 1);
        lemma_put_keeps_rising(endpoints, rising(endpoints, n - 1), n - 1);
    }
}

/// What is left of a list that rises strictly rises strictly, and each
/// position that is left stood among those that were looked at.
proof fn lemma_without_rises(
    endpoints: Seq<EndpointView>,
    positions: Seq<int>,
    others: Seq<EndpointView>,
    n: int,
)
    requires
        0 <= n <= positions.len(),
        strictly_rising(endpoints, positions),
    ensures
        strictly_rising(endpoints, without(endpoints, positions, others, n)),
        forall|k: int|
            0 <= k < without(endpoints, positions, others, n).len() ==> exists|l: int|
                0 <= l < n && #[trigger] positions[l] == (#[trigger] without(endpoints, positions, others, n)[k]),
    decreases n,
{
    if n > 0 {
        lemma_without_rises(endpoints, positions, others, n - 1);
        let earlier = without(endpoints, positions, others, n - 1);
        let now = without(endpoints, positions, others, n);
        assert forall|k: int| 0 <= k < now.len() implies exists|l: int|
            0 <= l < n && #[trigger] positions[l] == (#[trigger] now[k]) by {
            if k < earlier.len() {
                let l = choose|l: int| 0 <= l < n - 1 && #[trigger] positions[l] == earlier[k];
                assert(positions[l] == now[k]);
            } else {
                assert(positions[n - 1] == now[k]);
            }
        }
        assert forall|k: int, l: int| 0 <= k < l < now.len() implies before(
            endpoints[#[trigger] now[k]],
            endpoints[#[trigger] now[l]],
        ) by {
            if l < earlier.len() {
                assert(now[k] == earlier[k] && now[l] == earlier[l]);
            } else {
                let m = choose|m: int| 0 <= m < n - 1 && #[trigger] positions[m] == earlier[k];
                assert(now[l] == positions[n - 1]);
                assert(before(endpoints[positions[m]], endpoints[positions[n - 1]]));
            }
        }
    }
}

/// What only one list holds rises strictly: it is in the order of the
/// endpoints, and holds each kind of endpoint once.
pub proof fn lemma_only_in_rises(endpoints: Seq<EndpointView>, others: Seq<EndpointView>)
    ensures
        strictly_rising(endpoints, only_in(endpoints, others)),
{
    let sorted = rising(endpoints, endpoints.len() as int);
    lemma_rising_rises(endpoints, endpoints.len() as int);
    lemma_without_rises(endpoints, sorted, others, sorted.len() as int);
}

/// Whether `a` comes before `b`.
pub fn endpoint_comes_before(a: &EndpointConfiguration, b: &EndpointConfiguration) -> (first: bool)
    ensures
        first == before(a@, b@),
{
    if a.method.position() != b.method.position() {
        a.method.position() < b.method.position()
    } else if comes_before(a.path.original_source(), b.path.original_source()) {
        true
    } else if a.path != b.path {
        false
    } else if a.status_code != b.status_code {
        a.status_code < b.status_code
    } else {
        a.runtime.comes_before(&b.runtime)
    }
}

/// Whether each of `positions` is a position of one of `endpoints` endpoints.
pub open spec fn all_within(positions: Seq<usize>, endpoints: int) -> bool {
    forall|k: int| 0 <= k < positions.len() ==> #[trigger] positions[k] < endpoints
}

/// The place of `endpoint` among the endpoints that `sorted` points to.
fn find_place(endpoints: &Vec<EndpointConfiguration>, sorted: &Vec<usize>, endpoint: &EndpointConfiguration) -> (at: usize)
    requires
        all_within(sorted@, endpoints@.len() as int),
    ensures
        at == place(views(endpoints@), as_ints(sorted@), endpoint@, 0),
        at <= sorted@.len(),
{
    let ghost all = views(endpoints@);
    let ghost order = as_ints(sorted@);
    let mut at: usize = 0;
    while at < sorted.len() && endpoint_comes_before(&endpoints[sorted[at]], endpoint)
        invariant
            at <= sorted@.len(),
            all == views(endpoints@),
            order == as_ints(sorted@),
            all_within(sorted@, endpoints@.len() as int),
            place(all, order, endpoint@, at as int) == place(all, order, endpoint@, 0),
        decreases sorted@.len() - at,
    {
        assert(all[order[at as int]] == endpoints@[sorted@[at as int] as int]@);
        at += 1;
    }
    proof {
        if at < sorted@.len() {
            assert(all[order[at as int]] == endpoints@[sorted@[at as int] as int]@);
        }
    }
    at
}

/// The positions of `endpoints`, put in the order of their endpoints, each
/// kind of endpoint at its first position only.
fn sort_and_dedup(endpoints: &Vec<EndpointConfiguration>) -> (sorted: Vec<usize>)
    ensures
        as_ints(sorted@) == rising(views(endpoints@), endpoints@.len() as int),
        all_within(sorted@, endpoints@.len() as int),
{
    let ghost all = views(endpoints@);
    let mut sorted: Vec<usize> = Vec::new();
    let mut i: usize = 0;
    while i < endpoints.len()
        invariant
            i <= endpoints@.len(),
            all == views(endpoints@),
            all_within(sorted@, endpoints@.len() as int),
            as_ints(sorted@) == rising(all, i as int),
        decreases endpoints@.len() - i,
    {
        let ghost order = as_ints(sorted@);
        let at = find_place(endpoints, &sorted, &endpoints[i]);
        let known = at < sorted.len() && endpoints[sorted[at]] == endpoints[i];
        proof {
            if at < sorted@.len() {
                assert(all[order[at as int]] == endpoints@[sorted@[at as int] as int]@);
            }
        }
        if !known {
            sorted.insert(at, i);
            assert(as_ints(sorted@) =~= order.insert(at as int, i as int));
        }
        i += 1;
    }
    sorted
}

/// Of `sorted`, in its order, the positions whose endpoint `others` does not
/// hold.
fn remove_shared(
    endpoints: &Vec<EndpointConfiguration>,
    sorted: &Vec<usize>,
    others: &Vec<EndpointConfiguration>,
) -> (left: Vec<usize>)
    requires
        all_within(sorted@, endpoints@.len() as int),
    ensures
        as_ints(left@) == without(
            views(endpoints@),
            as_ints(sorted@),
            views(others@),
            sorted@.len() as int,
        ),
        all_within(left@, endpoints@.len() as int),
{
    let ghost all = views(endpoints@);
    let ghost order = as_ints(sorted@);
    let mut left: Vec<usize> = Vec::new();
    let mut k: usize = 0;
    while k < sorted.len()
        invariant
            k <= sorted@.len(),
            all == views(endpoints@),
            order == as_ints(sorted@),
            all_within(sorted@, endpoints@.len() as int),
            all_within(left@, endpoints@.len() as int),
            as_ints(left@) == without(all, order, views(others@), k as int),
        decreases sorted@.len() - k,
    {
        let ghost kept = as_ints(left@);
        let i = sorted[k];
        assert(all[order[k as int]] == endpoints@[i as int]@);
        if !holds_endpoint(others, &endpoints[i]) {
            left.push(i);
            assert(as_ints(left@) =~= kept.push(i as int));
        }
        k += 1;
    }
    left
}

/// Adds to `listed` the endpoints at `positions` of `endpoints`, in their
/// order.
fn list_endpoints<'a>(
    listed: &mut Vec<&'a EndpointConfiguration>,
    endpoints: &'a Vec<EndpointConfiguration>,
    positions: &Vec<usize>,
)
    requires
        all_within(positions@, endpoints@.len() as int),
    ensures
        referents(final(listed)@) == referents(old(listed)@) + endpoints_at(
            endpoints@,
            as_ints(positions@),
        ),
{
    let ghost order = as_ints(positions@);
    let mut k: usize = 0;
    while k < positions.len()
        invariant
            k <= positions@.len(),
            order == as_ints(positions@),
            all_within(positions@, endpoints@.len() as int),
            referents(listed@) == referents(old(listed)@) + endpoints_at(endpoints@, order.take(k as int)),
        decreases positions@.len() - k,
    {
        let ghost before = referents(listed@);
        listed.push(&endpoints[positions[k]]);
        proof {
            let i = positions@[k as int] as int;
            assert(referents(listed@) =~= before.push(endpoints@[i]));
            assert(order.take(k + 1) =~= order.take(k as int).push(i));
            assert(endpoints_at(endpoints@, order.take(k + 1)) =~= endpoints_at(
                endpoints@,
                order.take(k as int),
            ).push(endpoints@[i]));
            assert(referents(listed@) =~= referents(old(listed)@) + endpoints_at(
                endpoints@,
                order.take(k + 1),
            ));
        }
        k += 1;
    }
    proof {
        assert(order.take(positions@.len() as int) =~= order);
    }
}

/// The residual of `set_a` and `set_b`: the endpoints that only `set_a`
/// holds, then those that only `set_b` holds, each part in the order of the
/// endpoints and each kind of endpoint once.
pub fn compare_endpoints<'a>(
    set_a: &'a Vec<EndpointConfiguration>,
    set_b: &'a Vec<EndpointConfiguration>,
) -> (differing: Vec<&'a EndpointConfiguration>)
    ensures
        referents(differing@) == residual(set_a@, set_b@),
{
    let sorted_a = sort_and_dedup(set_a);
    let sorted_b = sort_and_dedup(set_b);
    let only_a = remove_shared(set_a, &sorted_a, set_b);
    let only_b = remove_shared(set_b, &sorted_b, set_a);
    let mut differing: Vec<&'a EndpointConfiguration> = Vec::new();
    list_endpoints(&mut differing, set_a, &only_a);
    list_endpoints(&mut differing, set_b, &only_b);
    proof {
        assert(referents(Seq::<&EndpointConfiguration>::empty()) =~= Seq::empty());
        assert(referents(differing@) =~= residual(set_a@, set_b@));
    }
    differing
}

} // verus!
