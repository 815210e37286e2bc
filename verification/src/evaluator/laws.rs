//! What the evaluation of coverage guarantees, whatever the endpoints, the
//! traffic and the groupings: which endpoints can be left uncovered, and when
//! traffic on one member of a grouping counts for all.

use vstd::prelude::*;
use crate::evaluator::compare::Progress;
use crate::evaluator::compare::is_among;
use crate::evaluator::compare::is_grouped;
use crate::evaluator::compare::is_hit;
use crate::evaluator::compare::is_relevant;
use crate::evaluator::compare::join;
use crate::evaluator::compare::lemma_offer;
use crate::evaluator::compare::lemma_progress_after;
use crate::evaluator::compare::lemma_relevant_among;
use crate::evaluator::compare::lemma_unsatisfied;
use crate::evaluator::compare::not_covered;
use crate::evaluator::compare::offer;
use crate::evaluator::compare::progress_after;
use crate::evaluator::compare::queue;
use crate::evaluator::compare::relevant;
use crate::evaluator::compare::relevant_among;
use crate::evaluator::compare::unsatisfied;
use crate::evaluator::compare::within;
use crate::models::endpoint::EndpointView;
use crate::models::grouping::GroupingView;

verus! {

/// Whether an ignore group among `groupings` encompasses `endpoint`.
pub open spec fn is_ignored(endpoint: EndpointView, groupings: Seq<GroupingView>) -> bool {
    exists|g: int|
        0 <= g < groupings.len() && (#[trigger] groupings[g]).encompasses_endpoint(endpoint)
            && groupings[g].is_ignore_group
}

/// Whether `progress` flags no endpoint as satisfied, and records none as a
/// member, that no grouping encompasses.
pub open spec fn grouped_only(
    progress: Progress,
    declared: Seq<EndpointView>,
    groupings: Seq<GroupingView>,
) -> bool {
    &&& forall|x: int|
        0 <= x < progress.satisfied.len() && #[trigger] progress.satisfied[x] ==> is_grouped(
            declared[x],
            groupings,
        )
    &&& forall|g: int, k: int|
        0 <= g < progress.members.len() && 0 <= k < progress.members[g].len() ==> is_grouped(
            declared[#[trigger] progress.members[g][k]],
            groupings,
        )
}

/// Whether each flag that is set in `before` is set in `after`.
pub open spec fn keeps_flags(before: Progress, after: Progress) -> bool {
    &&& before.satisfied.len() == after.satisfied.len()
    &&& forall|x: int| 0 <= x < before.satisfied.len() && before.satisfied[x] ==> #[trigger] after.satisfied[x]
}

/// Joining a grouping clears no flag, and sets that of the endpoint where
/// the grouping is an ignore group or the traffic reached the endpoint.
proof fn lemma_join_effects(
    progress: Progress,
    g: int,
    i: int,
    is_ignore: bool,
    hit: bool,
    declared: Seq<EndpointView>,
    groupings: Seq<GroupingView>,
)
    requires
        within(progress, declared.len() as int, groupings.len() as int),
        0 <= g < groupings.len(),
        0 <= i < declared.len(),
        grouped_only(progress, declared, groupings),
        is_grouped(declared[i], groupings),
    ensures
        grouped_only(join(progress, g, i, is_ignore, hit), declared, groupings),
        keeps_flags(progress, join(progress, g, i, is_ignore, hit)),
        is_ignore || hit ==> join(progress, g, i, is_ignore, hit).satisfied[i],
{
    let after = join(progress, g, i, is_ignore, hit);
    let members = progress.members[g];
    assert forall|x: int| 0 <= x < after.satisfied.len() && #[trigger] after.satisfied[x] implies is_grouped(
        declared[x],
        groupings,
    ) by {
        if x != i && !progress.satisfied[x] {
            assert(members.contains(x));
            let k = choose|k: int| 0 <= k < members.len() && members[k] == x;
            assert(progress.members[g][k] == x);
        }
    }
    assert forall|h: int, k: int| 0 <= h < after.members.len() && 0 <= k < after.members[h].len() implies is_grouped(
        declared[#[trigger] after.members[h][k]],
        groupings,
    ) by {
        if h == g && k < members.len() {
            assert(after.members[h][k] == progress.members[g][k]);
        } else if h != g {
            assert(after.members[h][k] == progress.members[h][k]);
        }
    }
}

/// Offering an endpoint to the groupings clears no flag, and sets that of
/// the endpoint where an ignore group encompasses it, or a grouping does and
/// the traffic reached it.
proof fn lemma_offer_effects(
    progress: Progress,
    groupings: Seq<GroupingView>,
    n: int,
    i: int,
    hit: bool,
    declared: Seq<EndpointView>,
)
    requires
        within(progress, declared.len() as int, groupings.len() as int),
        0 <= n <= groupings.len(),
        0 <= i < declared.len(),
        grouped_only(progress, declared, groupings),
    ensures
        grouped_only(offer(progress, groupings, n, i, declared[i], hit), declared, groupings),
        keeps_flags(progress, offer(progress, groupings, n, i, declared[i], hit)),
        hit && (exists|g: int| 0 <= g < n && (#[trigger] groupings[g]).encompasses_endpoint(declared[i]))
            ==> offer(progress, groupings, n, i, declared[i], hit).satisfied[i],
        (exists|g: int|
            0 <= g < n && (#[trigger] groupings[g]).encompasses_endpoint(declared[i])
                && groupings[g].is_ignore_group) ==> offer(
            progress,
            groupings,
            n,
            i,
            declared[i],
            hit,
        ).satisfied[i],
    decreases n,
{
    if n > 0 {
        lemma_offer_effects(progress, groupings, n - 1, i, hit, declared);
        lemma_offer(progress, groupings, n - 1, i, declared[i], hit, declared.len() as int);
        let before = offer(progress, groupings, n - 1, i, declared[i], hit);
        let after = offer(progress, groupings, n, i, declared[i], hit);
        if groupings[n - 1].encompasses_endpoint(declared[i]) {
            lemma_join_effects(before, n - 1, i, groupings[n - 1].is_ignore_group, hit, declared, groupings);
        }
        assert forall|x: int| 0 <= x < progress.satisfied.len() && progress.satisfied[x] implies #[trigger] after.satisfied[x] by {
            assert(before.satisfied[x]);
        }
        if hit && (exists|g: int| 0 <= g < n && (#[trigger] groupings[g]).encompasses_endpoint(declared[i])) {
            let g = choose|g: int| 0 <= g < n && (#[trigger] groupings[g]).encompasses_endpoint(declared[i]);
            if g < n - 1 {
                assert(before.satisfied[i]);
                assert(after.satisfied[i]);
            }
        }
        if exists|g: int|
            0 <= g < n && (#[trigger] groupings[g]).encompasses_endpoint(declared[i])
                && groupings[g].is_ignore_group {
            let g = choose|g: int|
                0 <= g < n && (#[trigger] groupings[g]).encompasses_endpoint(declared[i])
                    && groupings[g].is_ignore_group;
            if g < n - 1 {
                assert(before.satisfied[i]);
                assert(after.satisfied[i]);
            }
        }
    }
}

/// What holds of the endpoint at `i` once it was looked at: where the
/// traffic reached it, or an ignore group encompasses it, it is flagged or
/// was never queued; where no grouping encompasses it and the traffic did
/// not reach it, it is queued.
pub open spec fn settled(
    progress: Progress,
    declared: Seq<EndpointView>,
    observed: Seq<EndpointView>,
    groupings: Seq<GroupingView>,
    i: int,
) -> bool {
    &&& is_hit(declared[i], observed) && is_grouped(declared[i], groupings) ==> progress.satisfied[i]
    &&& is_hit(declared[i], observed) && !is_grouped(declared[i], groupings)
        ==> !progress.unmatched.contains(i)
    &&& is_ignored(declared[i], groupings) ==> progress.satisfied[i]
    &&& !is_hit(declared[i], observed) && !is_grouped(declared[i], groupings)
        ==> progress.unmatched.contains(i)
}

/// Whether `positions` rise strictly, so that none occurs twice.
pub open spec fn rises(positions: Seq<int>) -> bool {
    forall|k: int, l: int| 0 <= k < l < positions.len() ==> #[trigger] positions[k] < #[trigger] positions[l]
}

/// Of positions that rise, those that are kept rise, and each that is kept
/// comes no later among them than among all.
proof fn lemma_unsatisfied_rises(positions: Seq<int>, flags: Seq<bool>, n: int)
    requires
        0 <= n <= positions.len(),
        rises(positions),
    ensures
        rises(unsatisfied(positions, flags, n)),
        forall|k: int|
            0 <= k < unsatisfied(positions, flags, n).len() ==> n > 0 && #[trigger] unsatisfied(
                positions,
                flags,
                n,
            )[k] <= positions[n - 1],
    decreases n,
{
    if n > 0 {
        lemma_unsatisfied_rises(positions, flags, n - 1);
        let before = unsatisfied(positions, flags, n - 1);
        let now = unsatisfied(positions, flags, n);
        assert forall|k: int| 0 <= k < now.len() implies #[trigger] now[k] <= positions[n - 1] by {
            if k < before.len() {
                assert(now[k] == before[k]);
                assert(positions[n - 2] < positions[n - 1]);
            }
        }
        assert forall|k: int, l: int| 0 <= k < l < now.len() implies #[trigger] now[k] < #[trigger] now[l] by {
            if l < before.len() {
                assert(now[k] == before[k] && now[l] == before[l]);
            } else {
                assert(now[k] == before[k]);
                assert(before[k] <= positions[n - 2]);
                assert(positions[n - 2] < positions[n - 1]);
            }
        }
    }
}

/// Whether `positions` rise strictly and lie within `bound`.
pub open spec fn rising_within(positions: Seq<int>, bound: int) -> bool {
    &&& forall|k: int| 0 <= k < positions.len() ==> 0 <= #[trigger] positions[k] < bound
    &&& forall|k: int, l: int| 0 <= k < l < positions.len() ==> positions[k] < positions[l]
}

/// While endpoints at rising positions are looked at: only endpoints that a
/// grouping encompasses are flagged, the queue holds positions that were
/// looked at, each once, and each endpoint that was looked at is settled.
proof fn lemma_progress_effects(
    declared: Seq<EndpointView>,
    observed: Seq<EndpointView>,
    groupings: Seq<GroupingView>,
    positions: Seq<int>,
    n: int,
)
    requires
        0 <= n <= positions.len(),
        rising_within(positions, declared.len() as int),
    ensures
        within(
            progress_after(declared, observed, groupings, positions, n),
            declared.len() as int,
            groupings.len() as int,
        ),
        grouped_only(progress_after(declared, observed, groupings, positions, n), declared, groupings),
        forall|k: int|
            0 <= k < progress_after(declared, observed, groupings, positions, n).unmatched.len() ==> is_among(
                positions,
                n,
                #[trigger] progress_after(declared, observed, groupings, positions, n).unmatched[k],
            ),
        forall|j: int|
            0 <= j < n ==> settled(
                progress_after(declared, observed, groupings, positions, n),
                declared,
                observed,
                groupings,
                #[trigger] positions[j],
            ),
        rises(progress_after(declared, observed, groupings, positions, n).unmatched),
    decreases n,
{
    lemma_progress_after(declared, observed, groupings, positions, n);
    if n > 0 {
        lemma_progress_effects(declared, observed, groupings, positions, n - 1);
        lemma_progress_after(declared, observed, groupings, positions, n - 1);
        let before = progress_after(declared, observed, groupings, positions, n - 1);
        let after = progress_after(declared, observed, groupings, positions, n);
        let i = positions[n - 1];
        let hit = is_hit(declared[i], observed);
        lemma_offer(before, groupings, groupings.len() as int, i, declared[i], hit, declared.len() as int);
        lemma_offer_effects(before, groupings, groupings.len() as int, i, hit, declared);
        assert(keeps_flags(before, after));
        assert(after.unmatched == before.unmatched || after.unmatched == before.unmatched.push(i));
        assert(!before.unmatched.contains(i)) by {
            if before.unmatched.contains(i) {
                let k = choose|k: int| 0 <= k < before.unmatched.len() && before.unmatched[k] == i;
                assert(is_among(positions, n - 1, before.unmatched[k]));
                let j = choose|j: int| 0 <= j < n - 1 && #[trigger] positions[j] == i;
                assert(positions[j] < positions[n - 1]);
            }
        }
        assert forall|k: int, l: int| 0 <= k < l < after.unmatched.len() implies #[trigger] after.unmatched[k]
            < #[trigger] after.unmatched[l] by {
            if l < before.unmatched.len() {
                assert(after.unmatched[k] == before.unmatched[k] && after.unmatched[l] == before.unmatched[l]);
            } else {
                assert(after.unmatched[k] == before.unmatched[k]);
                assert(is_among(positions, n - 1, before.unmatched[k]));
                let j = choose|j: int| 0 <= j < n - 1 && #[trigger] positions[j] == before.unmatched[k];
                assert(positions[j] < positions[n - 1]);
            }
        }
        assert forall|k: int| 0 <= k < after.unmatched.len() implies is_among(
            positions,
            n,
            #[trigger] after.unmatched[k],
        ) by {
            if k < before.unmatched.len() {
                assert(after.unmatched[k] == before.unmatched[k]);
                assert(is_among(positions, n - 1, before.unmatched[k]));
                let j = choose|j: int| 0 <= j < n - 1 && #[trigger] positions[j] == before.unmatched[k];
                assert(positions[j] == after.unmatched[k]);
            } else {
                assert(positions[n - 1] == after.unmatched[k]);
            }
        }
        assert forall|j: int| 0 <= j < n implies settled(
            after,
            declared,
            observed,
            groupings,
            #[trigger] positions[j],
        ) by {
            let x = positions[j];
            if j < n - 1 {
                assert(settled(before, declared, observed, groupings, x));
                assert(positions[j] < positions[n - 1]);
                if before.satisfied[x] {
                    assert(after.satisfied[x]);
                }
                if before.unmatched.contains(x) {
                    let k = choose|k: int| 0 <= k < before.unmatched.len() && before.unmatched[k] == x;
                    assert(after.unmatched[k] == x);
                }
                if after.unmatched.contains(x) && !before.unmatched.contains(x) {
                    let k = choose|k: int| 0 <= k < after.unmatched.len() && after.unmatched[k] == x;
                    if k < before.unmatched.len() {
                        assert(before.unmatched[k] == x);
                    }
                }
            } else {
                if is_grouped(declared[i], groupings) {
                    if is_ignored(declared[i], groupings) {
                        let g = choose|g: int|
                            0 <= g < groupings.len() && (#[trigger] groupings[g]).encompasses_endpoint(
                                declared[i],
                            ) && groupings[g].is_ignore_group;
                        assert(groupings[g].encompasses_endpoint(declared[i]));
                    }
                } else {
                    if is_ignored(declared[i], groupings) {
                        let g = choose|g: int|
                            0 <= g < groupings.len() && (#[trigger] groupings[g]).encompasses_endpoint(
                                declared[i],
                            ) && groupings[g].is_ignore_group;
                        assert(groupings[g].encompasses_endpoint(declared[i]));
                    }
                    if !hit {
                        assert(after.unmatched[before.unmatched.len() as int] == i);
                    }
                }
            }
        }
    }
}

/// What is left uncovered.
///
/// Each endpoint that is left was to be evaluated, the traffic did not reach
/// it, and no ignore group encompasses it. An endpoint that was to be
/// evaluated, that no grouping encompasses and that the traffic did not
/// reach is left. The endpoints that are left come in the order in which
/// they are declared, each once.
pub proof fn lemma_not_covered(
    declared: Seq<EndpointView>,
    baseline: Option<Seq<EndpointView>>,
    observed: Seq<EndpointView>,
    groupings: Seq<GroupingView>,
)
    ensures
        forall|k: int|
            0 <= k < not_covered(declared, baseline, observed, groupings).len() ==> {
                let i = #[trigger] not_covered(declared, baseline, observed, groupings)[k];
                is_relevant(declared, baseline, i) && !is_hit(declared[i], observed) && !is_ignored(
                    declared[i],
                    groupings,
                )
            },
        forall|i: int|
            is_relevant(declared, baseline, i) && !is_grouped(declared[i], groupings) && !is_hit(
                declared[i],
                observed,
            ) ==> #[trigger] not_covered(declared, baseline, observed, groupings).contains(i),
        rises(not_covered(declared, baseline, observed, groupings)),
{
    let positions = relevant(declared, baseline);
    let n = positions.len() as int;
    lemma_relevant_among(declared, baseline, declared.len() as int);
    lemma_relevant_complete(declared, baseline, declared.len() as int);
    lemma_progress_effects(declared, observed, groupings, positions, n);
    let end = progress_after(declared, observed, groupings, positions, n);
    lemma_unsatisfied(end.unmatched, end.satisfied, end.unmatched.len() as int);
    lemma_unsatisfied_rises(end.unmatched, end.satisfied, end.unmatched.len() as int);
    let left = not_covered(declared, baseline, observed, groupings);
    assert forall|k: int| 0 <= k < left.len() implies {
        let i = #[trigger] left[k];
        is_relevant(declared, baseline, i) && !is_hit(declared[i], observed) && !is_ignored(
            declared[i],
            groupings,
        )
    } by {
        let i = left[k];
        assert(is_among(end.unmatched, end.unmatched.len() as int, i));
        let at = choose|at: int| 0 <= at < end.unmatched.len() && #[trigger] end.unmatched[at] == i;
        assert(end.unmatched.contains(i));
        assert(is_among(positions, n, end.unmatched[at]));
        let j = choose|j: int| 0 <= j < n && #[trigger] positions[j] == i;
        assert(settled(end, declared, observed, groupings, positions[j]));
        assert(!end.satisfied[i]);
    }
    assert forall|i: int|
        is_relevant(declared, baseline, i) && !is_grouped(declared[i], groupings) && !is_hit(
            declared[i],
            observed,
        ) implies #[trigger] left.contains(i) by {
        assert(is_among(positions, n, i));
        let j = choose|j: int| 0 <= j < n && #[trigger] positions[j] == i;
        assert(settled(end, declared, observed, groupings, positions[j]));
        assert(end.unmatched.contains(i));
        let at = choose|at: int| 0 <= at < end.unmatched.len() && end.unmatched[at] == i;
        if end.satisfied[i] {
            assert(is_grouped(declared[i], groupings));
        }
        assert(left.contains(end.unmatched[at]));
    }
}

/// Each position that is to be evaluated is among the relevant positions.
proof fn lemma_relevant_complete(declared: Seq<EndpointView>, baseline: Option<Seq<EndpointView>>, n: int)
    requires
        0 <= n <= declared.len(),
    ensures
        forall|i: int|
            0 <= i < n && #[trigger] is_relevant(declared, baseline, i) ==> is_among(
                relevant_among(declared, baseline, n),
                relevant_among(declared, baseline, n).len() as int,
                i,
            ),
    decreases n,
{
    if n > 0 {
        lemma_relevant_complete(declared, baseline, n - 1);
        let before = relevant_among(declared, baseline, n - 1);
        let now = relevant_among(declared, baseline, n);
        assert forall|i: int| 0 <= i < n && #[trigger] is_relevant(declared, baseline, i) implies is_among(
            now,
            now.len() as int,
            i,
        ) by {
            if i < n - 1 {
                assert(is_among(before, before.len() as int, i));
                let at = choose|at: int| 0 <= at < before.len() && #[trigger] before[at] == i;
                assert(now[at] == i);
            } else {
                assert(now[now.len() - 1] == i);
            }
        }
    }
}

/// Whether no two of `groupings` encompass the same of the endpoints at
/// `positions`.
pub open spec fn groupings_apart(
    declared: Seq<EndpointView>,
    positions: Seq<int>,
    groupings: Seq<GroupingView>,
) -> bool {
    forall|j: int, g: int, h: int|
        0 <= j < positions.len() && 0 <= g < groupings.len() && 0 <= h < groupings.len() && g != h ==> !((
        #[trigger] groupings[g]).encompasses_endpoint(declared[#[trigger] positions[j]]) && (
        #[trigger] groupings[h]).encompasses_endpoint(declared[positions[j]]))
}

/// Whether `grouping` is satisfied by the first `n` of the endpoints at
/// `positions`: it is an ignore group, or the traffic reached one of them
/// that it encompasses.
pub open spec fn is_satisfied(
    grouping: GroupingView,
    declared: Seq<EndpointView>,
    observed: Seq<EndpointView>,
    positions: Seq<int>,
    n: int,
) -> bool {
    grouping.is_ignore_group || exists|j: int|
        0 <= j < n && grouping.encompasses_endpoint(declared[#[trigger] positions[j]]) && is_hit(
            declared[positions[j]],
            observed,
        )
}

/// What holds of the grouping at `g` once the first `n` of the endpoints at
/// `positions` were looked at, where the groupings are apart: its members
/// are those of the endpoints that it encompasses, they are flagged if and
/// only if the grouping is satisfied, and queued where it is not.
pub open spec fn group_settled(
    progress: Progress,
    declared: Seq<EndpointView>,
    observed: Seq<EndpointView>,
    groupings: Seq<GroupingView>,
    positions: Seq<int>,
    n: int,
    g: int,
) -> bool {
    let members = progress.members[g];
    let flag = is_satisfied(groupings[g], declared, observed, positions, n);
    &&& forall|k: int|
        0 <= k < members.len() ==> groupings[g].encompasses_endpoint(declared[#[trigger] members[k]])
            && is_among(positions, n, members[k]) && progress.satisfied[members[k]] == flag && (!flag
            ==> progress.unmatched.contains(members[k]))
    &&& forall|j: int|
        0 <= j < n && groupings[g].encompasses_endpoint(declared[#[trigger] positions[j]])
            ==> members.contains(positions[j])
}

/// Whether `progress` flags only endpoints that were looked at.
pub open spec fn flags_among(progress: Progress, positions: Seq<int>, n: int) -> bool {
    forall|x: int| 0 <= x < progress.satisfied.len() && #[trigger] progress.satisfied[x] ==> is_among(positions, n, x)
}

/// An endpoint that one grouping only encompasses joins that grouping, and
/// no other.
proof fn lemma_offer_to_one(
    progress: Progress,
    groupings: Seq<GroupingView>,
    n: int,
    i: int,
    endpoint: EndpointView,
    hit: bool,
    g: int,
)
    requires
        0 <= n <= groupings.len(),
        0 <= g < groupings.len(),
        groupings[g].encompasses_endpoint(endpoint),
        forall|h: int| 0 <= h < groupings.len() && h != g ==> !(#[trigger] groupings[h]).encompasses_endpoint(endpoint),
    ensures
        offer(progress, groupings, n, i, endpoint, hit) == if g < n {
            join(progress, g, i, groupings[g].is_ignore_group, hit)
        } else {
            progress
        },
    decreases n,
{
    if n > 0 {
        lemma_offer_to_one(progress, groupings, n - 1, i, endpoint, hit, g);
    }
}

/// Where the groupings are apart, each of them is settled after each
/// endpoint.
proof fn lemma_groups_settled(
    declared: Seq<EndpointView>,
    observed: Seq<EndpointView>,
    groupings: Seq<GroupingView>,
    positions: Seq<int>,
    n: int,
)
    requires
        0 <= n <= positions.len(),
        rising_within(positions, declared.len() as int),
        groupings_apart(declared, positions, groupings),
    ensures
        flags_among(progress_after(declared, observed, groupings, positions, n), positions, n),
        forall|g: int|
            0 <= g < groupings.len() ==> #[trigger] group_settled(
                progress_after(declared, observed, groupings, positions, n),
                declared,
                observed,
                groupings,
                positions,
                n,
                g,
            ),
    decreases n,
{
    lemma_progress_after(declared, observed, groupings, positions, n);
    let after = progress_after(declared, observed, groupings, positions, n);
    if n == 0 {
        assert forall|g: int| 0 <= g < groupings.len() implies #[trigger] group_settled(
            after,
            declared,
            observed,
            groupings,
            positions,
            n,
            g,
        ) by {
            assert(after.members[g].len() == 0);
        }
    } else {
        lemma_groups_settled(declared, observed, groupings, positions, n - 1);
        lemma_progress_after(declared, observed, groupings, positions, n - 1);
        let before = progress_after(declared, observed, groupings, positions, n - 1);
        let i = positions[n - 1];
        let endpoint = declared[i];
        let hit = is_hit(endpoint, observed);
        assert(!before.satisfied[i]) by {
            if before.satisfied[i] {
                assert(is_among(positions, n - 1, i));
                let j = choose|j: int| 0 <= j < n - 1 && #[trigger] positions[j] == i;
                assert(positions[j] < positions[n - 1]);
            }
        }
        if !is_grouped(endpoint, groupings) {
            assert(after.satisfied == before.satisfied);
            assert(after.members == before.members);
            assert forall|x: int| 0 <= x < after.satisfied.len() && #[trigger] after.satisfied[x] implies is_among(
                positions,
                n,
                x,
            ) by {
                assert(is_among(positions, n - 1, x));
                let j = choose|j: int| 0 <= j < n - 1 && #[trigger] positions[j] == x;
                assert(positions[j] == x);
            }
            assert forall|g: int| 0 <= g < groupings.len() implies #[trigger] group_settled(
                after,
                declared,
                observed,
                groupings,
                positions,
                n,
                g,
            ) by {
                assert(group_settled(before, declared, observed, groupings, positions, n - 1, g));
                assert(!groupings[g].encompasses_endpoint(endpoint));
                lemma_satisfied_without(groupings[g], declared, observed, positions, n);
                let members = after.members[g];
                assert forall|k: int| 0 <= k < members.len() implies is_among(positions, n, #[trigger] members[k])
                    && (after.unmatched.contains(members[k]) || !before.unmatched.contains(members[k])) by {
                    lemma_among_more(positions, n - 1, members[k]);
                    lemma_queue_keeps(before.unmatched, after.unmatched, i, members[k]);
                }
            }
        } else {
            let g0 = choose|g: int| 0 <= g < groupings.len() && (#[trigger] groupings[g]).encompasses_endpoint(endpoint);
            assert forall|h: int| 0 <= h < groupings.len() && h != g0 implies !(#[trigger] groupings[h]).encompasses_endpoint(
                endpoint,
            ) by {
                assert(positions[n - 1] == i);
            }
            lemma_offer_to_one(before, groupings, groupings.len() as int, i, endpoint, hit, g0);
            let ignore = groupings[g0].is_ignore_group;
            assert(after == join(before, g0, i, ignore, hit));
            let old_members = before.members[g0];
            let old_flag = is_satisfied(groupings[g0], declared, observed, positions, n - 1);
            let known = old_members.len() > 0 && before.satisfied[old_members[0]];
            assert(group_settled(before, declared, observed, groupings, positions, n - 1, g0));
            lemma_satisfied_with(groupings[g0], declared, observed, positions, n);
            assert(known ==> old_flag) by {
                if known {
                    assert(before.satisfied[old_members[0]] == old_flag);
                }
            }
            assert(!known && !ignore ==> !old_flag) by {
                if !known && !ignore && old_flag {
                    let j = choose|j: int|
                        0 <= j < n - 1 && groupings[g0].encompasses_endpoint(declared[#[trigger] positions[j]])
                            && is_hit(declared[positions[j]], observed);
                    assert(old_members.contains(positions[j]));
                    assert(before.satisfied[old_members[0]] == old_flag);
                }
            }
            assert forall|x: int| 0 <= x < after.satisfied.len() && #[trigger] after.satisfied[x] implies is_among(
                positions,
                n,
                x,
            ) by {
                if x == i {
                    assert(positions[n - 1] == x);
                } else if before.satisfied[x] {
                    lemma_among_more(positions, n - 1, x);
                } else {
                    assert(old_members.contains(x));
                    let k = choose|k: int| 0 <= k < old_members.len() && old_members[k] == x;
                    assert(is_among(positions, n - 1, old_members[k]));
                    lemma_among_more(positions, n - 1, x);
                }
            }
            assert forall|g: int| 0 <= g < groupings.len() implies #[trigger] group_settled(
                after,
                declared,
                observed,
                groupings,
                positions,
                n,
                g,
            ) by {
                assert(group_settled(before, declared, observed, groupings, positions, n - 1, g));
                let members = after.members[g];
                let flag = is_satisfied(groupings[g], declared, observed, positions, n);
                if g == g0 {
                    assert(members == old_members.push(i));
                    assert forall|k: int| 0 <= k < members.len() implies groupings[g].encompasses_endpoint(
                        declared[#[trigger] members[k]],
                    ) && is_among(positions, n, members[k]) && after.satisfied[members[k]] == flag && (!flag
                        ==> after.unmatched.contains(members[k])) by {
                        if k < old_members.len() {
                            assert(members[k] == old_members[k]);
                            lemma_among_more(positions, n - 1, old_members[k]);
                            assert(old_members.contains(old_members[k]));
                            lemma_queue_keeps(before.unmatched, after.unmatched, i, old_members[k]);
                        } else {
                            assert(members[k] == i);
                            assert(positions[n - 1] == i);
                            if !flag {
                                assert(after.unmatched == queue(before.unmatched, i));
                                lemma_queue_holds(before.unmatched, i);
                            }
                        }
                    }
                    assert forall|j: int|
                        0 <= j < n && groupings[g].encompasses_endpoint(
                            declared[#[trigger] positions[j]],
                        ) implies members.contains(positions[j]) by {
                        if j < n - 1 {
                            assert(old_members.contains(positions[j]));
                            let k = choose|k: int| 0 <= k < old_members.len() && old_members[k] == positions[j];
                            assert(members[k] == positions[j]);
                        } else {
                            assert(members[old_members.len() as int] == i);
                        }
                    }
                } else {
                    assert(!groupings[g].encompasses_endpoint(endpoint));
                    lemma_satisfied_without(groupings[g], declared, observed, positions, n);
                    assert(members == before.members[g]);
                    assert forall|k: int| 0 <= k < members.len() implies groupings[g].encompasses_endpoint(
                        declared[#[trigger] members[k]],
                    ) && is_among(positions, n, members[k]) && after.satisfied[members[k]] == flag && (!flag
                        ==> after.unmatched.contains(members[k])) by {
                        let m = members[k];
                        lemma_among_more(positions, n - 1, m);
                        lemma_queue_keeps(before.unmatched, after.unmatched, i, m);
                        assert(m != i);
                        if old_members.contains(m) {
                            let l = choose|l: int| 0 <= l < old_members.len() && old_members[l] == m;
                            assert(groupings[g0].encompasses_endpoint(declared[old_members[l]]));
                            assert(is_among(positions, n - 1, m));
                            let j = choose|j: int| 0 <= j < n - 1 && #[trigger] positions[j] == m;
                            assert(groupings[g].encompasses_endpoint(declared[positions[j]]));
                            assert(groupings[g0].encompasses_endpoint(declared[positions[j]]));
                            assert(false);
                        }
                        assert(after.satisfied[m] == before.satisfied[m]);
                    }
                }
            }
        }
    }
}

/// What is among the first positions is among more of them.
proof fn lemma_among_more(positions: Seq<int>, n: int, position: int)
    requires
        is_among(positions, n, position),
    ensures
        is_among(positions, n + 1, position),
{
    let at = choose|at: int| 0 <= at < n && #[trigger] positions[at] == position;
    assert(positions[at] == position);
}

/// A queue that has grown by one position at most holds what it held.
proof fn lemma_queue_keeps(before: Seq<int>, after: Seq<int>, i: int, position: int)
    requires
        after == before || after == before.push(i) || after == queue(before, i),
    ensures
        before.contains(position) ==> after.contains(position),
{
    if before.contains(position) {
        let k = choose|k: int| 0 <= k < before.len() && before[k] == position;
        assert(after[k] == position);
    }
}

/// A position that was queued is held by the queue.
proof fn lemma_queue_holds(before: Seq<int>, i: int)
    ensures
        queue(before, i).contains(i),
{
    let after = queue(before, i);
    assert(after[after.len() - 1] == i);
}

/// An endpoint that a grouping does not encompass does not change whether
/// the grouping is satisfied.
proof fn lemma_satisfied_without(
    grouping: GroupingView,
    declared: Seq<EndpointView>,
    observed: Seq<EndpointView>,
    positions: Seq<int>,
    n: int,
)
    requires
        0 < n <= positions.len(),
        !grouping.encompasses_endpoint(declared[positions[n - 1]]),
    ensures
        is_satisfied(grouping, declared, observed, positions, n) == is_satisfied(
            grouping,
            declared,
            observed,
            positions,
            n - 1,
        ),
{
    if is_satisfied(grouping, declared, observed, positions, n) && !grouping.is_ignore_group {
        let j = choose|j: int|
            0 <= j < n && grouping.encompasses_endpoint(declared[#[trigger] positions[j]]) && is_hit(
                declared[positions[j]],
                observed,
            );
        assert(j < n - 1);
        assert(grouping.encompasses_endpoint(declared[positions[j]]));
    }
    if is_satisfied(grouping, declared, observed, positions, n - 1) && !grouping.is_ignore_group {
        let j = choose|j: int|
            0 <= j < n - 1 && grouping.encompasses_endpoint(declared[#[trigger] positions[j]]) && is_hit(
                declared[positions[j]],
                observed,
            );
        assert(grouping.encompasses_endpoint(declared[positions[j]]));
    }
}

/// An endpoint that a grouping encompasses satisfies the grouping where the
/// traffic reached it, and else leaves it as it was.
proof fn lemma_satisfied_with(
    grouping: GroupingView,
    declared: Seq<EndpointView>,
    observed: Seq<EndpointView>,
    positions: Seq<int>,
    n: int,
)
    requires
        0 < n <= positions.len(),
        grouping.encompasses_endpoint(declared[positions[n - 1]]),
    ensures
        is_satisfied(grouping, declared, observed, positions, n) == (is_satisfied(
            grouping,
            declared,
            observed,
            positions,
            n - 1,
        ) || is_hit(declared[positions[n - 1]], observed)),
{
    if is_satisfied(grouping, declared, observed, positions, n) && !grouping.is_ignore_group {
        let j = choose|j: int|
            0 <= j < n && grouping.encompasses_endpoint(declared[#[trigger] positions[j]]) && is_hit(
                declared[positions[j]],
                observed,
            );
        if j < n - 1 {
            assert(grouping.encompasses_endpoint(declared[positions[j]]));
        }
    }
    if is_satisfied(grouping, declared, observed, positions, n - 1) && !grouping.is_ignore_group {
        let j = choose|j: int|
            0 <= j < n - 1 && grouping.encompasses_endpoint(declared[#[trigger] positions[j]]) && is_hit(
                declared[positions[j]],
                observed,
            );
        assert(grouping.encompasses_endpoint(declared[positions[j]]));
    }
    if is_hit(declared[positions[n - 1]], observed) {
        assert(grouping.encompasses_endpoint(declared[positions[n - 1]]));
    }
}

/// Where no two groupings encompass the same endpoint, traffic on one member
/// of a grouping counts for all: an endpoint that was to be evaluated and
/// that a grouping encompasses is left uncovered if and only if the grouping
/// is no ignore group and the traffic reached none of the endpoints that
/// were to be evaluated and that it encompasses.
pub proof fn lemma_grouping_covers_all_or_none(
    declared: Seq<EndpointView>,
    baseline: Option<Seq<EndpointView>>,
    observed: Seq<EndpointView>,
    groupings: Seq<GroupingView>,
    i: int,
    g: int,
)
    requires
        groupings_apart(declared, relevant(declared, baseline), groupings),
        is_relevant(declared, baseline, i),
        0 <= g < groupings.len(),
        groupings[g].encompasses_endpoint(declared[i]),
    ensures
        not_covered(declared, baseline, observed, groupings).contains(i) <==> !is_satisfied(
            groupings[g],
            declared,
            observed,
            relevant(declared, baseline),
            relevant(declared, baseline).len() as int,
        ),
{
    let positions = relevant(declared, baseline);
    let n = positions.len() as int;
    lemma_relevant_among(declared, baseline, declared.len() as int);
    lemma_relevant_complete(declared, baseline, declared.len() as int);
    lemma_groups_settled(declared, observed, groupings, positions, n);
    lemma_progress_after(declared, observed, groupings, positions, n);
    let end = progress_after(declared, observed, groupings, positions, n);
    lemma_unsatisfied(end.unmatched, end.satisfied, end.unmatched.len() as int);
    let left = not_covered(declared, baseline, observed, groupings);
    let flag = is_satisfied(groupings[g], declared, observed, positions, n);
    assert(group_settled(end, declared, observed, groupings, positions, n, g));
    assert(is_among(positions, n, i));
    let j = choose|j: int| 0 <= j < n && #[trigger] positions[j] == i;
    assert(groupings[g].encompasses_endpoint(declared[positions[j]]));
    let members = end.members[g];
    assert(members.contains(i));
    let k = choose|k: int| 0 <= k < members.len() && members[k] == i;
    assert(end.satisfied[members[k]] == flag);
    if !flag {
        assert(end.unmatched.contains(i));
        let at = choose|at: int| 0 <= at < end.unmatched.len() && end.unmatched[at] == i;
        assert(left.contains(end.unmatched[at]));
    }
    if left.contains(i) {
        let at = choose|at: int| 0 <= at < left.len() && left[at] == i;
        assert(!end.satisfied[left[at]]);
    }
}

} // verus!
