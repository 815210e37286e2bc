//! The evaluation of coverage: which of the declared endpoints did the
//! observed traffic reach, directly or through a grouping.
//!
//! The declared endpoints are the arena: an endpoint is known by its position
//! among them. One flag for each says whether it is satisfied, each grouping
//! records the positions of its members in the order in which they came, and
//! the positions of the endpoints that were missed are queued. All of them
//! speak of the same flags, so that a member that is satisfied through one
//! grouping is satisfied wherever it is recorded.
//!
//! The endpoints are looked at in the order in which they are declared, and
//! the groupings in the order in which they are given. An endpoint is queued
//! once, however many groupings miss it, so that none is counted twice and
//! the coverage lies between nothing and all.

use vstd::prelude::*;
use crate::models::endpoint::EndpointConfiguration;
use crate::models::endpoint::EndpointView;
use crate::models::grouping::Grouping;
use crate::models::grouping::GroupingView;

verus! {

/// The status code of a gateway that could not reach the service behind it.
pub const BAD_GATEWAY: u16 = 502;

/// The number of bad-gateway answers above which the setup is suspected.
pub const GATEWAY_ISSUE_LIMIT: usize = 40;

/// What tells each of `endpoints` from the others, in their order.
pub open spec fn views(endpoints: Seq<EndpointConfiguration>) -> Seq<EndpointView> {
    endpoints.map_values(|endpoint: EndpointConfiguration| endpoint@)
}

/// The views of an earlier state of the declared endpoints, if there is one.
pub open spec fn baseline_views(baseline: Option<Vec<EndpointConfiguration>>) -> Option<
    Seq<EndpointView>,
> {
    match baseline {
        Some(endpoints) => Some(views(endpoints@)),
        None => None,
    }
}

/// What tells each of `groupings` from the others, in their order.
pub open spec fn grouping_views(groupings: Seq<Grouping>) -> Seq<GroupingView> {
    groupings.map_values(|grouping: Grouping| grouping@)
}

/// Whether the endpoint at position `i` of `declared` is to be evaluated: it
/// is the first of its kind there, and the baseline, where there is one, does
/// not hold it.
pub open spec fn is_relevant(
    declared: Seq<EndpointView>,
    baseline: Option<Seq<EndpointView>>,
    i: int,
) -> bool {
    &&& 0 <= i < declared.len()
    &&& forall|j: int| 0 <= j < i ==> declared[j] != declared[i]
    &&& baseline matches Some(earlier) ==> !earlier.contains(declared[i])
}

/// The positions among the first `n` of `declared` that are to be evaluated,
/// in rising order.
pub open spec fn relevant_among(
    declared: Seq<EndpointView>,
    baseline: Option<Seq<EndpointView>>,
    n: int,
) -> Seq<int>
    decreases n,
{
    if n <= 0 {
        Seq::empty()
    } else if is_relevant(declared, baseline, n - 1) {
        relevant_among(declared, baseline, n - 1).push(n - 1)
    } else {
        relevant_among(declared, baseline, n - 1)
    }
}

/// The positions of the declared endpoints that are to be evaluated, in
/// rising order.
pub open spec fn relevant(declared: Seq<EndpointView>, baseline: Option<Seq<EndpointView>>) -> Seq<
    int,
> {
    relevant_among(declared, baseline, declared.len() as int)
}

/// Whether the traffic reached `endpoint`: one of the observed endpoints is
/// encompassed by it.
pub open spec fn is_hit(endpoint: EndpointView, observed: Seq<EndpointView>) -> bool {
    exists|j: int| 0 <= j < observed.len() && endpoint.encompasses_endpoint(#[trigger] observed[j])
}

/// Whether one of `groupings` encompasses `endpoint`.
pub open spec fn is_grouped(endpoint: EndpointView, groupings: Seq<GroupingView>) -> bool {
    exists|g: int| 0 <= g < groupings.len() && (#[trigger] groupings[g]).encompasses_endpoint(endpoint)
}

/// How far an evaluation has come.
pub struct Progress {
    /// For each declared endpoint, whether it is satisfied.
    pub satisfied: Seq<bool>,
    /// For each grouping, the positions of its members, as they were recorded.
    pub members: Seq<Seq<int>>,
    /// The positions of the endpoints that were missed, as they were queued.
    pub unmatched: Seq<int>,
}

/// The state before any endpoint was looked at.
pub open spec fn start(endpoints: nat, groupings: nat) -> Progress {
    Progress {
        satisfied: Seq::new(endpoints, |i: int| false),
        members: Seq::new(groupings, |g: int| Seq::empty()),
        unmatched: Seq::empty(),
    }
}

/// `flags`, with each of `positions` set.
pub open spec fn mark_all(flags: Seq<bool>, positions: Seq<int>) -> Seq<bool> {
    Seq::new(flags.len(), |i: int| flags[i] || positions.contains(i))
}

/// `unmatched` with `i` queued, unless it was queued just before.
pub open spec fn queue(unmatched: Seq<int>, i: int) -> Seq<int> {
    if unmatched.len() > 0 && unmatched.last() == i {
        unmatched
    } else {
        unmatched.push(i)
    }
}

/// The state after the endpoint at `i` has joined the grouping at `g`.
///
/// Where the first member of the grouping is satisfied, or the grouping is
/// an ignore group, the endpoint is satisfied. Else, where the traffic reached
/// it, it is satisfied and so is every member recorded before it. Else it is
/// queued as missed. In each case it is recorded as a member.
pub open spec fn join(progress: Progress, g: int, i: int, is_ignore: bool, hit: bool) -> Progress {
    let members = progress.members[g];
    let known = members.len() > 0 && progress.satisfied[members[0]];
    Progress {
        satisfied: if known || is_ignore {
            progress.satisfied.update(i, true)
        } else if hit {
            mark_all(progress.satisfied, members).update(i, true)
        } else {
            progress.satisfied
        },
        members: progress.members.update(g, members.push(i)),
        unmatched: if known || is_ignore || hit {
            progress.unmatched
        } else {
            queue(progress.unmatched, i)
        },
    }
}

/// The state after the endpoint at `i` has joined each of the first `n`
/// groupings that encompasses it, in their order.
pub open spec fn offer(
    progress: Progress,
    groupings: Seq<GroupingView>,
    n: int,
    i: int,
    endpoint: EndpointView,
    hit: bool,
) -> Progress
    decreases n,
{
    if n <= 0 {
        progress
    } else {
        let before = offer(progress, groupings, n - 1, i, endpoint, hit);
        if groupings[n - 1].encompasses_endpoint(endpoint) {
            join(before, n - 1, i, groupings[n - 1].is_ignore_group, hit)
        } else {
            before
        }
    }
}

/// The state after the endpoint at `i` was looked at: it has joined the
/// groupings that encompass it; where there is none, it is queued as missed
/// unless the traffic reached it.
pub open spec fn consider(
    progress: Progress,
    declared: Seq<EndpointView>,
    observed: Seq<EndpointView>,
    groupings: Seq<GroupingView>,
    i: int,
) -> Progress {
    let hit = is_hit(declared[i], observed);
    if is_grouped(declared[i], groupings) {
        offer(progress, groupings, groupings.len() as int, i, declared[i], hit)
    } else if hit {
        progress
    } else {
        Progress { unmatched: progress.unmatched.push(i), ..progress }
    }
}

/// The state after the first `n` of the endpoints at `positions` were looked
/// at, in their order.
pub open spec fn progress_after(
    declared: Seq<EndpointView>,
    observed: Seq<EndpointView>,
    groupings: Seq<GroupingView>,
    positions: Seq<int>,
    n: int,
) -> Progress
    decreases n,
{
    if n <= 0 {
        start(declared.len(), groupings.len())
    } else {
        consider(
            progress_after(declared, observed, groupings, positions, n - 1),
            declared,
            observed,
            groupings,
            positions[n - 1],
        )
    }
}

/// Of the first `n` of `positions`, in their order, those whose flag in
/// `flags` is not set.
pub open spec fn unsatisfied(positions: Seq<int>, flags: Seq<bool>, n: int) -> Seq<int>
    decreases n,
{
    if n <= 0 {
        Seq::empty()
    } else if flags[positions[n - 1]] {
        unsatisfied(positions, flags, n - 1)
    } else {
        unsatisfied(positions, flags, n - 1).push(positions[n - 1])
    }
}

/// The positions of the declared endpoints that are not covered: of those
/// that are to be evaluated, in their order, the ones that were queued as
/// missed and are not satisfied in the end.
pub open spec fn not_covered(
    declared: Seq<EndpointView>,
    baseline: Option<Seq<EndpointView>>,
    observed: Seq<EndpointView>,
    groupings: Seq<GroupingView>,
) -> Seq<int> {
    let positions = relevant(declared, baseline);
    let end = progress_after(declared, observed, groupings, positions, positions.len() as int);
    unsatisfied(end.unmatched, end.satisfied, end.unmatched.len() as int)
}

/// The number of the first `n` of `observed` with the status code `code`.
pub open spec fn count_status(observed: Seq<EndpointView>, code: u16, n: int) -> nat
    decreases n,
{
    if n <= 0 {
        0
    } else if observed[n - 1].status_code == code {
        count_status(observed, code, n - 1) + 1
    } else {
        count_status(observed, code, n - 1)
    }
}

/// Whether the traffic suggests that the gateway could not reach the
/// service: more than forty answers, or more than a quarter of all, were
/// bad-gateway answers.
pub open spec fn gateway_suspected(observed: Seq<EndpointView>) -> bool {
    let bad = count_status(observed, BAD_GATEWAY, observed.len() as int);
    bad > GATEWAY_ISSUE_LIMIT || bad > observed.len() / 4
}

/// The outcome of an evaluation. The coverage is `covered_endpoints` out of
/// `relevant_endpoints`, and full where nothing was to be evaluated.
pub struct Evaluation<'a> {
    pub has_gateway_issues: bool,
    pub relevant_endpoints: usize,
    pub covered_endpoints: usize,
    pub endpoints_not_covered: Vec<&'a EndpointConfiguration>,
}

/// Whether `endpoint` encompasses one of `possibly_incompased_endpoints`.
pub fn endpoint_incompases_any(
    endpoint: &EndpointConfiguration,
    possibly_incompased_endpoints: &Vec<EndpointConfiguration>,
) -> (hit: bool)
    ensures
        hit == is_hit(endpoint@, views(possibly_incompased_endpoints@)),
{
    let ghost observed = views(possibly_incompased_endpoints@);
    let mut j: usize = 0;
    while j < possibly_incompased_endpoints.len()
        invariant
            j <= possibly_incompased_endpoints.len(),
            observed == views(possibly_incompased_endpoints@),
            forall|k: int| 0 <= k < j ==> !endpoint@.encompasses_endpoint(#[trigger] observed[k]),
        decreases possibly_incompased_endpoints.len() - j,
    {
        if endpoint.incompases_endpoint(&possibly_incompased_endpoints[j]) {
            assert(endpoint@.encompasses_endpoint(observed[j as int]));
            return true;
        }
        j += 1;
    }
    false
}

/// Whether the traffic suggests that the gateway could not reach the service.
pub fn has_gateway_issues(nginx_endpoints: &Vec<EndpointConfiguration>) -> (suspected: bool)
    ensures
        suspected == gateway_suspected(views(nginx_endpoints@)),
{
    let ghost observed = views(nginx_endpoints@);
    let mut gateway_issues: usize = 0;
    let mut j: usize = 0;
    while j < nginx_endpoints.len()
        invariant
            j <= nginx_endpoints.len(),
            observed == views(nginx_endpoints@),
            gateway_issues == count_status(observed, BAD_GATEWAY, j as int),
            gateway_issues <= j,
        decreases nginx_endpoints.len() - j,
    {
        if nginx_endpoints[j].status_code == BAD_GATEWAY {
            gateway_issues += 1;
        }
        j += 1;
    }
    gateway_issues > GATEWAY_ISSUE_LIMIT || gateway_issues > nginx_endpoints.len() / 4
}

/// `positions` as mathematical integers.
pub open spec fn as_ints(positions: Seq<usize>) -> Seq<int> {
    positions.map_values(|position: usize| position as int)
}

/// Whether `endpoints` holds an endpoint like `endpoint`.
pub fn holds_endpoint(endpoints: &Vec<EndpointConfiguration>, endpoint: &EndpointConfiguration) -> (found: bool)
    ensures
        found == views(endpoints@).contains(endpoint@),
{
    let ghost all = views(endpoints@);
    let mut j: usize = 0;
    while j < endpoints.len()
        invariant
            j <= endpoints.len(),
            all == views(endpoints@),
            forall|k: int| 0 <= k < j ==> all[k] != endpoint@,
        decreases endpoints.len() - j,
    {
        if endpoints[j] == *endpoint {
            assert(all[j as int] == endpoint@);
            return true;
        }
        j += 1;
    }
    false
}

/// Whether the endpoint at `i` is the first of its kind in `endpoints`.
fn is_first_of_kind(endpoints: &Vec<EndpointConfiguration>, i: usize) -> (first: bool)
    requires
        i < endpoints.len(),
    ensures
        first == (forall|j: int| 0 <= j < i ==> views(endpoints@)[j] != views(endpoints@)[i as int]),
{
    let ghost all = views(endpoints@);
    let mut j: usize = 0;
    while j < i
        invariant
            j <= i < endpoints.len(),
            all == views(endpoints@),
            forall|k: int| 0 <= k < j ==> all[k] != all[i as int],
        decreases i - j,
    {
        if endpoints[j] == endpoints[i] {
            assert(all[j as int] == all[i as int]);
            return false;
        }
        j += 1;
    }
    true
}

/// The positions of the endpoints of `post_merge_endpoints` that are to be
/// evaluated: each kind of endpoint once, at its first position, without
/// those that `pre_merge_endpoints` holds.
pub fn get_endpoints_for_diff(
    pre_merge_endpoints: &Option<Vec<EndpointConfiguration>>,
    post_merge_endpoints: &Vec<EndpointConfiguration>,
) -> (relevant_endpoints: Vec<usize>)
    ensures
        as_ints(relevant_endpoints@) == relevant(
            views(post_merge_endpoints@),
            baseline_views(*pre_merge_endpoints),
        ),
{
    let ghost declared = views(post_merge_endpoints@);
    let ghost baseline = baseline_views(*pre_merge_endpoints);
    let mut relevant_endpoints: Vec<usize> = Vec::new();
    let mut i: usize = 0;
    while i < post_merge_endpoints.len()
        invariant
            i <= post_merge_endpoints.len(),
            declared == views(post_merge_endpoints@),
            baseline == baseline_views(*pre_merge_endpoints),
            as_ints(relevant_endpoints@) == relevant_among(declared, baseline, i as int),
        decreases post_merge_endpoints.len() - i,
    {
        let ghost before = as_ints(relevant_endpoints@);
        let known_before = match pre_merge_endpoints {
            Some(earlier) => holds_endpoint(earlier, &post_merge_endpoints[i]),
            None => false,
        };
        if !known_before && is_first_of_kind(post_merge_endpoints, i) {
            relevant_endpoints.push(i);
            assert(as_ints(relevant_endpoints@) =~= before.push(i as int));
        }
        i += 1;
    }
    relevant_endpoints
}

/// Records the endpoint at `endpoint` as a member that was missed: in its
/// grouping, and in the queue unless it was queued just before.
fn add_endpoint_as_missed(
    endpoint: usize,
    grouping_endpoints: &mut Vec<usize>,
    unmatched_endpoints: &mut Vec<usize>,
)
    ensures
        final(grouping_endpoints)@ == old(grouping_endpoints)@.push(endpoint),
        as_ints(final(unmatched_endpoints)@) == queue(as_ints(old(unmatched_endpoints)@), endpoint as int),
{
    grouping_endpoints.push(endpoint);
    let queued = unmatched_endpoints.len() > 0 && unmatched_endpoints[unmatched_endpoints.len() - 1]
        == endpoint;
    if !queued {
        let ghost before = as_ints(unmatched_endpoints@);
        unmatched_endpoints.push(endpoint);
        assert(as_ints(unmatched_endpoints@) =~= before.push(endpoint as int));
    }
}

/// Sets the flag at each of `positions`.
fn satisfy_all(satisfied: &mut Vec<bool>, positions: &Vec<usize>)
    requires
        forall|k: int| 0 <= k < positions@.len() ==> positions@[k] < old(satisfied)@.len(),
    ensures
        final(satisfied)@ == mark_all(old(satisfied)@, as_ints(positions@)),
{
    let ghost marks = as_ints(positions@);
    let mut k: usize = 0;
    while k < positions.len()
        invariant
            k <= positions.len(),
            marks == as_ints(positions@),
            satisfied@.len() == old(satisfied)@.len(),
            forall|j: int| 0 <= j < positions@.len() ==> positions@[j] < satisfied@.len(),
            satisfied@ == mark_all(old(satisfied)@, marks.take(k as int)),
        decreases positions.len() - k,
    {
        let ghost before = satisfied@;
        let position = positions[k];
        satisfied[position] = true;
        proof {
            let earlier = marks.take(k as int);
            let now = marks.take(k + 1);
            assert(now =~= earlier.push(position as int));
            assert forall|x: int| 0 <= x < satisfied@.len() implies satisfied@[x] == (old(
                satisfied,
            )@[x] || now.contains(x)) by {
                if x == position {
                    assert(now[k as int] == x);
                } else if earlier.contains(x) {
                    let at = choose|at: int| 0 <= at < earlier.len() && earlier[at] == x;
                    assert(now[at] == x);
                } else if now.contains(x) {
                    let at = choose|at: int| 0 <= at < now.len() && now[at] == x;
                    assert(earlier[at] == x);
                }
            }
            assert(satisfied@ =~= mark_all(old(satisfied)@, now));
        }
        k += 1;
    }
    proof {
        assert(marks.take(positions@.len() as int) =~= marks);
        assert(satisfied@ =~= mark_all(old(satisfied)@, marks));
    }
}

/// Whether the state that the evaluation holds is `progress`.
pub open spec fn mirrors(
    progress: Progress,
    satisfied: Seq<bool>,
    members: Seq<Vec<usize>>,
    unmatched: Seq<usize>,
) -> bool {
    &&& satisfied == progress.satisfied
    &&& members.len() == progress.members.len()
    &&& forall|g: int| 0 <= g < members.len() ==> as_ints(#[trigger] members[g]@) == progress.members[g]
    &&& as_ints(unmatched) == progress.unmatched
}

/// Whether `progress` speaks of `endpoints` endpoints and `groupings`
/// groupings, and of no position beyond them.
pub open spec fn within(progress: Progress, endpoints: int, groupings: int) -> bool {
    &&& progress.satisfied.len() == endpoints
    &&& progress.members.len() == groupings
    &&& forall|g: int, k: int|
        0 <= g < groupings && 0 <= k < progress.members[g].len() ==> 0 <= #[trigger] progress.members[g][k]
            < endpoints
    &&& forall|k: int| 0 <= k < progress.unmatched.len() ==> 0 <= #[trigger] progress.unmatched[k] < endpoints
}

/// Joining a grouping keeps the state within its bounds and queues the
/// endpoint at most once.
proof fn lemma_join(progress: Progress, g: int, i: int, is_ignore: bool, hit: bool, endpoints: int)
    requires
        within(progress, endpoints, progress.members.len() as int),
        0 <= g < progress.members.len(),
        0 <= i < endpoints,
    ensures
        within(join(progress, g, i, is_ignore, hit), endpoints, progress.members.len() as int),
        join(progress, g, i, is_ignore, hit).unmatched == progress.unmatched || join(
            progress,
            g,
            i,
            is_ignore,
            hit,
        ).unmatched == queue(progress.unmatched, i),
        queue(queue(progress.unmatched, i), i) == queue(progress.unmatched, i),
{
    let after = join(progress, g, i, is_ignore, hit);
    assert forall|h: int, k: int| 0 <= h < after.members.len() && 0 <= k < after.members[h].len() implies 0
        <= #[trigger] after.members[h][k] < endpoints by {
        if h == g && k < progress.members[g].len() {
            assert(after.members[h][k] == progress.members[g][k]);
        } else if h != g {
            assert(after.members[h][k] == progress.members[h][k]);
        }
    }
}

/// Offering an endpoint to the groupings keeps the state within its bounds
/// and queues the endpoint at most once.
pub(crate) proof fn lemma_offer(
    progress: Progress,
    groupings: Seq<GroupingView>,
    n: int,
    i: int,
    endpoint: EndpointView,
    hit: bool,
    endpoints: int,
)
    requires
        within(progress, endpoints, groupings.len() as int),
        0 <= n <= groupings.len(),
        0 <= i < endpoints,
    ensures
        within(offer(progress, groupings, n, i, endpoint, hit), endpoints, groupings.len() as int),
        offer(progress, groupings, n, i, endpoint, hit).unmatched == progress.unmatched || offer(
            progress,
            groupings,
            n,
            i,
            endpoint,
            hit,
        ).unmatched == queue(progress.unmatched, i),
        (forall|g: int| 0 <= g < n ==> !(#[trigger] groupings[g]).encompasses_endpoint(endpoint)) ==> offer(
            progress,
            groupings,
            n,
            i,
            endpoint,
            hit,
        ) == progress,
    decreases n,
{
    if n > 0 {
        lemma_offer(progress, groupings, n - 1, i, endpoint, hit, endpoints);
        let before = offer(progress, groupings, n - 1, i, endpoint, hit);
        if groupings[n - 1].encompasses_endpoint(endpoint) {
            lemma_join(before, n - 1, i, groupings[n - 1].is_ignore_group, hit, endpoints);
            lemma_join(progress, 0, i, groupings[n - 1].is_ignore_group, hit, endpoints);
        }
    }
}

/// The positions that are to be evaluated rise, and each is a position of a
/// declared endpoint that is to be evaluated.
pub(crate) proof fn lemma_relevant_among(declared: Seq<EndpointView>, baseline: Option<Seq<EndpointView>>, n: int)
    requires
        0 <= n <= declared.len(),
    ensures
        relevant_among(declared, baseline, n).len() <= n,
        forall|k: int|
            0 <= k < relevant_among(declared, baseline, n).len() ==> {
                &&& 0 <= #[trigger] relevant_among(declared, baseline, n)[k] < n
                &&& is_relevant(declared, baseline, relevant_among(declared, baseline, n)[k])
            },
        forall|k: int, l: int|
            0 <= k < l < relevant_among(declared, baseline, n).len() ==> relevant_among(declared, baseline, n)[k]
                < relevant_among(declared, baseline, n)[l],
    decreases n,
{
    if n > 0 {
        lemma_relevant_among(declared, baseline, n - 1);
    }
}

/// While endpoints at valid positions are looked at, the state stays within
/// its bounds, and no more endpoints are queued than were looked at.
pub(crate) proof fn lemma_progress_after(
    declared: Seq<EndpointView>,
    observed: Seq<EndpointView>,
    groupings: Seq<GroupingView>,
    positions: Seq<int>,
    n: int,
)
    requires
        0 <= n <= positions.len(),
        forall|k: int| 0 <= k < positions.len() ==> 0 <= #[trigger] positions[k] < declared.len(),
    ensures
        within(
            progress_after(declared, observed, groupings, positions, n),
            declared.len() as int,
            groupings.len() as int,
        ),
        progress_after(declared, observed, groupings, positions, n).unmatched.len() <= n,
    decreases n,
{
    if n > 0 {
        lemma_progress_after(declared, observed, groupings, positions, n - 1);
        let before = progress_after(declared, observed, groupings, positions, n - 1);
        let i = positions[n - 1];
        lemma_offer(
            before,
            groupings,
            groupings.len() as int,
            i,
            declared[i],
            is_hit(declared[i], observed),
            declared.len() as int,
        );
    }
}

/// Whether `position` is one of the first `n` of `positions`.
pub open spec fn is_among(positions: Seq<int>, n: int, position: int) -> bool {
    exists|at: int| 0 <= at < n && #[trigger] positions[at] == position
}

/// The positions that are kept are among those that were given, none of them
/// is flagged, and none that is not flagged is left out.
pub(crate) proof fn lemma_unsatisfied(positions: Seq<int>, flags: Seq<bool>, n: int)
    requires
        0 <= n <= positions.len(),
    ensures
        unsatisfied(positions, flags, n).len() <= n,
        forall|k: int|
            0 <= k < unsatisfied(positions, flags, n).len() ==> {
                &&& is_among(positions, n, #[trigger] unsatisfied(positions, flags, n)[k])
                &&& !flags[unsatisfied(positions, flags, n)[k]]
            },
        forall|k: int|
            0 <= k < n && !flags[positions[k]] ==> unsatisfied(positions, flags, n).contains(
                #[trigger] positions[k],
            ),
    decreases n,
{
    if n > 0 {
        lemma_unsatisfied(positions, flags, n - 1);
        let before = unsatisfied(positions, flags, n - 1);
        let now = unsatisfied(positions, flags, n);
        assert forall|k: int| 0 <= k < now.len() implies is_among(positions, n, #[trigger] now[k]) by {
            if k < before.len() {
                assert(is_among(positions, n - 1, before[k]));
                let at = choose|at: int| 0 <= at < n - 1 && #[trigger] positions[at] == before[k];
                assert(positions[at] == now[k]);
            } else {
                assert(positions[n - 1] == now[k]);
            }
        }
        assert forall|k: int| 0 <= k < n && !flags[positions[k]] implies now.contains(
            #[trigger] positions[k],
        ) by {
            if k < n - 1 {
                assert(before.contains(positions[k]));
                let at = choose|at: int| 0 <= at < before.len() && before[at] == positions[k];
                assert(now[at] == positions[k]);
            } else {
                assert(now[now.len() - 1] == positions[k]);
            }
        }
    }
}

/// No more endpoints are left uncovered than were to be evaluated, and each
/// of them is a declared endpoint.
pub proof fn lemma_not_covered_bounds(
    declared: Seq<EndpointView>,
    baseline: Option<Seq<EndpointView>>,
    observed: Seq<EndpointView>,
    groupings: Seq<GroupingView>,
)
    ensures
        not_covered(declared, baseline, observed, groupings).len() <= relevant(declared, baseline).len()
            <= declared.len(),
        forall|k: int|
            0 <= k < not_covered(declared, baseline, observed, groupings).len() ==> 0 <= #[trigger] not_covered(
                declared,
                baseline,
                observed,
                groupings,
            )[k] < declared.len(),
{
    let positions = relevant(declared, baseline);
    lemma_relevant_among(declared, baseline, declared.len() as int);
    lemma_progress_after(declared, observed, groupings, positions, positions.len() as int);
    let left = not_covered(declared, baseline, observed, groupings);
    assert forall|k: int| 0 <= k < left.len() implies 0 <= #[trigger] left[k] < declared.len() by {
        let end = progress_after(declared, observed, groupings, positions, positions.len() as int);
        lemma_unsatisfied(end.unmatched, end.satisfied, end.unmatched.len() as int);
        assert(is_among(end.unmatched, end.unmatched.len() as int, left[k]));
        let at = choose|at: int| 0 <= at < end.unmatched.len() && #[trigger] end.unmatched[at] == left[k];
        assert(0 <= end.unmatched[at] < declared.len());
    }
    let end = progress_after(declared, observed, groupings, positions, positions.len() as int);
    lemma_unsatisfied(end.unmatched, end.satisfied, end.unmatched.len() as int);
}

/// The endpoints that `listed` refers to.
pub open spec fn referents(listed: Seq<&EndpointConfiguration>) -> Seq<EndpointConfiguration> {
    listed.map_values(|endpoint: &EndpointConfiguration| *endpoint)
}

/// The endpoints at `positions` of `declared`.
pub open spec fn endpoints_at(declared: Seq<EndpointConfiguration>, positions: Seq<int>) -> Seq<
    EndpointConfiguration,
> {
    positions.map_values(|position: int| declared[position])
}

/// Evaluates the coverage of the declared `openapi_endpoints` by the observed
/// `nginx_endpoints`.
///
/// Of the declared endpoints, each kind is evaluated once, and none that
/// `pre_merge_endpoints` holds already. They are looked at in their order,
/// and each joins the `groupings` that encompass it in the order of these.
/// An endpoint is not covered when it was missed and has not been satisfied
/// by the end.
pub fn evaluate<'a>(
    openapi_endpoints: &'a Vec<EndpointConfiguration>,
    pre_merge_endpoints: &Option<Vec<EndpointConfiguration>>,
    nginx_endpoints: &Vec<EndpointConfiguration>,
    groupings: &Vec<Grouping>,
) -> (evaluation: Evaluation<'a>)
    ensures
        evaluation.has_gateway_issues == gateway_suspected(views(nginx_endpoints@)),
        evaluation.relevant_endpoints == relevant(
            views(openapi_endpoints@),
            baseline_views(*pre_merge_endpoints),
        ).len(),
        evaluation.covered_endpoints == evaluation.relevant_endpoints
            - evaluation.endpoints_not_covered@.len(),
        referents(evaluation.endpoints_not_covered@) == endpoints_at(
            openapi_endpoints@,
            not_covered(
                views(openapi_endpoints@),
                baseline_views(*pre_merge_endpoints),
                views(nginx_endpoints@),
                grouping_views(groupings@),
            ),
        ),
{
    let ghost declared = views(openapi_endpoints@);
    let ghost baseline = baseline_views(*pre_merge_endpoints);
    let ghost observed = views(nginx_endpoints@);
    let ghost rules = grouping_views(groupings@);

    let relevant_endpoints = get_endpoints_for_diff(pre_merge_endpoints, openapi_endpoints);
    let ghost positions = as_ints(relevant_endpoints@);
    proof {
        lemma_relevant_among(declared, baseline, declared.len() as int);
        lemma_not_covered_bounds(declared, baseline, observed, rules);
    }

    let mut satisfied: Vec<bool> = Vec::new();
    while satisfied.len() < openapi_endpoints.len()
        invariant
            satisfied@.len() <= openapi_endpoints@.len(),
            forall|i: int| 0 <= i < satisfied@.len() ==> !satisfied@[i],
        decreases openapi_endpoints.len() - satisfied.len(),
    {
        satisfied.push(false);
    }
    let mut members: Vec<Vec<usize>> = Vec::new();
    while members.len() < groupings.len()
        invariant
            members@.len() <= groupings@.len(),
            forall|g: int| 0 <= g < members@.len() ==> (#[trigger] members@[g])@.len() == 0,
        decreases groupings.len() - members.len(),
    {
        members.push(Vec::new());
    }
    let mut unmatched: Vec<usize> = Vec::new();
    proof {
        let first = start(declared.len(), rules.len());
        assert(satisfied@ =~= first.satisfied);
        assert forall|g: int| 0 <= g < members@.len() implies as_ints(#[trigger] members@[g]@)
            == first.members[g] by {
            assert(as_ints(members@[g]@) =~= Seq::<int>::empty());
        }
        assert(as_ints(unmatched@) =~= first.unmatched);
    }

    let mut r: usize = 0;
    while r < relevant_endpoints.len()
        invariant
            r <= relevant_endpoints.len(),
            declared == views(openapi_endpoints@),
            observed == views(nginx_endpoints@),
            rules == grouping_views(groupings@),
            positions == as_ints(relevant_endpoints@),
            forall|k: int| 0 <= k < positions.len() ==> 0 <= #[trigger] positions[k] < declared.len(),
            mirrors(
                progress_after(declared, observed, rules, positions, r as int),
                satisfied@,
                members@,
                unmatched@,
            ),
        decreases relevant_endpoints.len() - r,
    {
        let i = relevant_endpoints[r];
        assert(positions[r as int] == i);
        let endpoint = &openapi_endpoints[i];
        let hit = endpoint_incompases_any(endpoint, nginx_endpoints);
        let ghost before = progress_after(declared, observed, rules, positions, r as int);
        proof {
            lemma_progress_after(declared, observed, rules, positions, r as int);
        }
        let mut has_group = false;
        let mut g: usize = 0;
        while g < groupings.len()
            invariant
                g <= groupings.len(),
                i < openapi_endpoints.len(),
                endpoint@ == declared[i as int],
                declared == views(openapi_endpoints@),
                rules == grouping_views(groupings@),
                within(before, declared.len() as int, rules.len() as int),
                has_group == exists|h: int| 0 <= h < g && (#[trigger] rules[h]).encompasses_endpoint(endpoint@),
                mirrors(
                    offer(before, rules, g as int, i as int, endpoint@, hit),
                    satisfied@,
                    members@,
                    unmatched@,
                ),
            decreases groupings.len() - g,
        {
            let ghost offered = offer(before, rules, g as int, i as int, endpoint@, hit);
            proof {
                lemma_offer(before, rules, g as int, i as int, endpoint@, hit, declared.len() as int);
            }
            if groupings[g].incompases_endpoint_config(endpoint) {
                assert(rules[g as int].encompasses_endpoint(endpoint@));
                has_group = true;
                let ghost joined = join(offered, g as int, i as int, rules[g as int].is_ignore_group, hit);
                assert(as_ints(members@[g as int]@) == offered.members[g as int]);
                let ghost recorded = members@[g as int]@;
                assert forall|k: int| 0 <= k < recorded.len() implies #[trigger] recorded[k]
                    < satisfied@.len() by {
                    assert(as_ints(recorded)[k] == offered.members[g as int][k]);
                }
                let known = members[g].len() >= 1 && satisfied[members[g][0]];
                if known || groupings[g].is_ignore() {
                    satisfied[i] = true;
                    members[g].push(i);
                } else if hit {
                    satisfy_all(&mut satisfied, &members[g]);
                    satisfied[i] = true;
                    members[g].push(i);
                } else {
                    add_endpoint_as_missed(i, &mut members[g], &mut unmatched);
                }
                proof {
                    assert(members@[g as int]@ == recorded.push(i));
                    assert(as_ints(recorded.push(i)) =~= as_ints(recorded).push(i as int));
                    assert forall|h: int| 0 <= h < members@.len() implies as_ints(#[trigger] members@[h]@)
                        == joined.members[h] by {
                        if h != g {
                            assert(joined.members[h] == offered.members[h]);
                        }
                    }
                    assert(joined.members.len() == members@.len());
                    assert(satisfied@ =~= joined.satisfied);
                }
            }
            g += 1;
        }
        proof {
            lemma_offer(before, rules, rules.len() as int, i as int, endpoint@, hit, declared.len() as int);
        }
        if !has_group && !hit {
            let ghost queued = as_ints(unmatched@);
            unmatched.push(i);
            assert(as_ints(unmatched@) =~= queued.push(i as int));
        }
        r += 1;
    }

    let ghost end = progress_after(declared, observed, rules, positions, positions.len() as int);
    proof {
        lemma_progress_after(declared, observed, rules, positions, positions.len() as int);
    }
    let mut endpoints_not_covered: Vec<&'a EndpointConfiguration> = Vec::new();
    let mut k: usize = 0;
    while k < unmatched.len()
        invariant
            k <= unmatched.len(),
            satisfied@ == end.satisfied,
            as_ints(unmatched@) == end.unmatched,
            within(end, openapi_endpoints@.len() as int, rules.len() as int),
            referents(endpoints_not_covered@) == endpoints_at(
                openapi_endpoints@,
                unsatisfied(end.unmatched, end.satisfied, k as int),
            ),
        decreases unmatched.len() - k,
    {
        let i = unmatched[k];
        assert(end.unmatched[k as int] == i);
        let ghost kept = unsatisfied(end.unmatched, end.satisfied, k as int);
        let ghost listed = endpoints_not_covered@;
        if !satisfied[i] {
            endpoints_not_covered.push(&openapi_endpoints[i]);
        }
        k += 1;
        proof {
            let now = unsatisfied(end.unmatched, end.satisfied, k as int);
            if !satisfied@[i as int] {
                assert(referents(endpoints_not_covered@) =~= referents(listed).push(
                    openapi_endpoints@[i as int],
                ));
                assert(endpoints_at(openapi_endpoints@, now) =~= endpoints_at(
                    openapi_endpoints@,
                    kept,
                ).push(openapi_endpoints@[i as int]));
            }
        }
    }
    proof {
        assert(referents(endpoints_not_covered@).len() == endpoints_not_covered@.len());
        assert(endpoints_at(openapi_endpoints@, not_covered(declared, baseline, observed, rules)).len()
            == not_covered(declared, baseline, observed, rules).len());
    }
    Evaluation {
        has_gateway_issues: has_gateway_issues(nginx_endpoints),
        relevant_endpoints: relevant_endpoints.len(),
        covered_endpoints: relevant_endpoints.len() - endpoints_not_covered.len(),
        endpoints_not_covered,
    }
}

} // verus!
