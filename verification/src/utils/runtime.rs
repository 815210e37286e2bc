//! Endpoints, gathered by the service that they belong to.

use std::sync::Arc;
use vstd::prelude::*;
use crate::config::share;
use crate::config::Runtime;
use crate::config::RuntimeView;
use crate::evaluator::compare::endpoints_at;
use crate::evaluator::compare::referents;
use crate::evaluator::compare::views;
use crate::models::endpoint::EndpointConfiguration;
use crate::models::endpoint::EndpointView;

verus! {

/// The place of the first of `groups` from `from` on that is the group of
/// `runtime`, and the number of groups where there is none.
pub open spec fn group_of(groups: Seq<(RuntimeView, Seq<int>)>, runtime: RuntimeView, from: int) -> int
    decreases groups.len() - from,
{
    if from < 0 || from >= groups.len() {
        groups.len() as int
    } else if groups[from].0 == runtime {
        from
    } else {
        group_of(groups, runtime, from + 1)
    }
}

/// The first `n` of `endpoints`, gathered by their service: the services in
/// the order in which they first occur, each with the positions of its
/// endpoints in their order.
pub open spec fn gathered(endpoints: Seq<EndpointView>, n: int) -> Seq<(RuntimeView, Seq<int>)>
    decreases n,
{
    if n <= 0 {
        Seq::empty()
    } else {
        let before = gathered(endpoints, n - 1);
        let runtime = endpoints[n - 1].runtime;
        let at = group_of(before, runtime, 0);
        if 0 <= at < before.len() {
            before.update(at, (runtime, before[at].1.push(n - 1)))
        } else {
            before.push((runtime, seq![n - 1]))
        }
    }
}

/// Whether `sorted` holds, group by group, the services and the endpoints
/// that `groups` point to among `endpoints`.
pub open spec fn gathers(
    sorted: Seq<(Arc<Runtime>, Vec<&EndpointConfiguration>)>,
    endpoints: Seq<EndpointConfiguration>,
    groups: Seq<(RuntimeView, Seq<int>)>,
) -> bool {
    &&& sorted.len() == groups.len()
    &&& forall|g: int|
        0 <= g < sorted.len() ==> (#[trigger] sorted[g]).0@ == groups[g].0 && referents(sorted[g].1@)
            == endpoints_at(endpoints, groups[g].1)
}

/// The place of a group lies within the groups or just after them.
proof fn lemma_group_of_bounds(groups: Seq<(RuntimeView, Seq<int>)>, runtime: RuntimeView, from: int)
    requires
        0 <= from <= groups.len(),
    ensures
        from <= group_of(groups, runtime, from) <= groups.len(),
    decreases groups.len() - from,
{
    if from < groups.len() && groups[from].0 != runtime {
        lemma_group_of_bounds(groups, runtime, from + 1);
    }
}

/// The endpoints of `endpoint_configs`, gathered by their service: the
/// services in the order in which they first occur, each with its endpoints
/// in their order.
pub fn sort_by_runtime<'a>(endpoint_configs: &'a Vec<EndpointConfiguration>) -> (sorted: Vec<
    (Arc<Runtime>, Vec<&'a EndpointConfiguration>),
>)
    ensures
        gathers(
            sorted@,
            endpoint_configs@,
            gathered(views(endpoint_configs@), endpoint_configs@.len() as int),
        ),
{
    let ghost all = views(endpoint_configs@);
    let mut sorted: Vec<(Arc<Runtime>, Vec<&'a EndpointConfiguration>)> = Vec::new();
    let mut i: usize = 0;
    while i < endpoint_configs.len()
        invariant
            i <= endpoint_configs@.len(),
            all == views(endpoint_configs@),
            gathers(sorted@, endpoint_configs@, gathered(all, i as int)),
        decreases endpoint_configs@.len() - i,
    {
        let ghost groups = gathered(all, i as int);
        let ghost held = sorted@;
        let endpoint = &endpoint_configs[i];
        assert(all[i as int].runtime == endpoint.runtime@);
        let mut at: usize = 0;
        while at < sorted.len() && *sorted[at].0 != *endpoint.runtime
            invariant
                at <= sorted@.len(),
                sorted@ == held,
                gathers(held, endpoint_configs@, groups),
                group_of(groups, endpoint.runtime@, at as int) == group_of(groups, endpoint.runtime@, 0),
            decreases sorted@.len() - at,
        {
            at += 1;
        }
        if at < sorted.len() {
            let ghost listed = referents(sorted@[at as int].1@);
            sorted[at].1.push(endpoint);
            proof {
                let now = gathered(all, i + 1);
                assert(referents(sorted@[at as int].1@) =~= listed.push(*endpoint));
                assert(endpoints_at(endpoint_configs@, groups[at as int].1.push(i as int)) =~= endpoints_at(
                    endpoint_configs@,
                    groups[at as int].1,
                ).push(endpoint_configs@[i as int]));
                assert forall|g: int| 0 <= g < sorted@.len() implies (#[trigger] sorted@[g]).0@ == now[g].0
                    && referents(sorted@[g].1@) == endpoints_at(endpoint_configs@, now[g].1) by {
                    if g != at {
                        assert(sorted@[g] == held[g]);
                    }
                }
            }
        } else {
            let mut group: Vec<&'a EndpointConfiguration> = Vec::new();
            group.push(endpoint);
            sorted.push((share(&endpoint.runtime), group));
            proof {
                let now = gathered(all, i + 1);
                lemma_group_of_bounds(groups, endpoint.runtime@, 0);
                assert(referents(group@) =~= seq![*endpoint]);
                assert(endpoints_at(endpoint_configs@, seq![i as int]) =~= seq![endpoint_configs@[i as int]]);
                assert forall|g: int| 0 <= g < sorted@.len() implies (#[trigger] sorted@[g]).0@ == now[g].0
                    && referents(sorted@[g].1@) == endpoints_at(endpoint_configs@, now[g].1) by {
                    if g < held.len() {
                        assert(sorted@[g] == held[g]);
                    }
                }
            }
        }
        i += 1;
    }
    sorted
}

} // verus!
