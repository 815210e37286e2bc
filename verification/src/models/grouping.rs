//! Groupings: rules that gather declared endpoints, so that traffic on one of
//! them counts for all.

use vstd::prelude::*;
use crate::models::endpoint::compile;
use crate::models::endpoint::encompasses;
use crate::models::endpoint::EndpointConfiguration;
use crate::models::endpoint::EndpointView;
use crate::models::endpoint::OpenapiPath;
use crate::models::misc::Method;

verus! {

/// A rule that gathers the endpoints with one of its methods, one of its
/// status codes and a path that its own path encompasses. The members of an
/// ignore group count as covered whatever the traffic.
#[derive(Debug, Hash)]
pub struct Grouping {
    methods: Vec<Method>,
    status: Vec<u16>,
    path: OpenapiPath,
    pub is_ignore_group: bool,
}

/// A [`Grouping`], its path as the text that it was written as.
pub struct GroupingView {
    pub methods: Seq<Method>,
    pub status: Seq<u16>,
    pub path: Seq<char>,
    pub is_ignore_group: bool,
}

impl View for Grouping {
    type V = GroupingView;

    closed spec fn view(&self) -> GroupingView {
        GroupingView {
            methods: self.methods@,
            status: self.status@,
            path: self.path@,
            is_ignore_group: self.is_ignore_group,
        }
    }
}

impl GroupingView {
    /// Whether `endpoint` belongs to the grouping: its method is one of the
    /// grouping's, its status code too, and the grouping's path encompasses
    /// the path that the endpoint was written with.
    pub open spec fn encompasses_endpoint(self, endpoint: EndpointView) -> bool {
        &&& self.methods.contains(endpoint.method)
        &&& self.status.contains(endpoint.status_code)
        &&& encompasses(compile(self.path), endpoint.path)
    }
}

/// Whether `methods` holds `method`.
fn holds_method(methods: &Vec<Method>, method: Method) -> (found: bool)
    ensures
        found == methods@.contains(method),
{
    let mut k: usize = 0;
    while k < methods.len()
        invariant
            k <= methods.len(),
            forall|j: int| 0 <= j < k ==> methods@[j] != method,
        decreases methods.len() - k,
    {
        if methods[k] == method {
            return true;
        }
        k += 1;
    }
    false
}

/// Whether `codes` holds `code`.
fn holds_status(codes: &Vec<u16>, code: u16) -> (found: bool)
    ensures
        found == codes@.contains(code),
{
    let mut k: usize = 0;
    while k < codes.len()
        invariant
            k <= codes.len(),
            forall|j: int| 0 <= j < k ==> codes@[j] != code,
        decreases codes.len() - k,
    {
        if codes[k] == code {
            return true;
        }
        k += 1;
    }
    false
}

/// Whether `a` and `b` hold the same methods in the same order.
fn same_methods(a: &Vec<Method>, b: &Vec<Method>) -> (same: bool)
    ensures
        same == (a@ == b@),
{
    if a.len() != b.len() {
        return false;
    }
    let mut k: usize = 0;
    while k < a.len()
        invariant
            k <= a.len(),
            a.len() == b.len(),
            forall|j: int| 0 <= j < k ==> a@[j] == b@[j],
        decreases a.len() - k,
    {
        if a[k] != b[k] {
            return false;
        }
        k += 1;
    }
    proof {
        assert(a@ =~= b@);
    }
    true
}

/// Whether `a` and `b` hold the same status codes in the same order.
fn same_codes(a: &Vec<u16>, b: &Vec<u16>) -> (same: bool)
    ensures
        same == (a@ == b@),
{
    if a.len() != b.len() {
        return false;
    }
    let mut k: usize = 0;
    while k < a.len()
        invariant
            k <= a.len(),
            a.len() == b.len(),
            forall|j: int| 0 <= j < k ==> a@[j] == b@[j],
        decreases a.len() - k,
    {
        if a[k] != b[k] {
            return false;
        }
        k += 1;
    }
    proof {
        assert(a@ =~= b@);
    }
    true
}

impl Grouping {
    /// The grouping of the endpoints with one of `methods`, one of `status`
    /// and a path that `path` encompasses.
    pub fn new(methods: Vec<Method>, status: Vec<u16>, path: OpenapiPath, is_ignore_group: bool) -> (grouping: Grouping)
        ensures
            grouping@ == (GroupingView {
                methods: methods@,
                status: status@,
                path: path@,
                is_ignore_group,
            }),
    {
        Grouping { methods, status, path, is_ignore_group }
    }

    /// Whether `endpoint` belongs to the grouping.
    pub fn incompases_endpoint_config(&self, endpoint: &EndpointConfiguration) -> (encompassed: bool)
        ensures
            encompassed == self@.encompasses_endpoint(endpoint@),
    {
        holds_method(&self.methods, endpoint.method) && holds_status(
            &self.status,
            endpoint.status_code,
        ) && self.path.incompases_openapi_path(&endpoint.path)
    }

    /// Whether the members of the grouping count as covered whatever the
    /// traffic.
    pub fn is_ignore(&self) -> (ignore: bool)
        ensures
            ignore == self@.is_ignore_group,
    {
        self.is_ignore_group
    }
}

impl PartialEq for Grouping {
    fn eq(&self, other: &Grouping) -> (same: bool) {
        same_methods(&self.methods, &other.methods) && same_codes(&self.status, &other.status)
            && self.path == other.path && self.is_ignore_group == other.is_ignore_group
    }
}

impl vstd::std_specs::cmp::PartialEqSpecImpl for Grouping {
    open spec fn obeys_eq_spec() -> bool {
        true
    }

    open spec fn eq_spec(&self, other: &Grouping) -> bool {
        self@ == other@
    }
}

impl Eq for Grouping {}

} // verus!
