//! Mutable insertion state: per-route context, per-candidate activity
//! context and the global solution context, together with the ghost models
//! the contracts of this crate are stated over.

use vstd::prelude::*;

use crate::domain::{Activity, Actor, Job, Registry, Route, Timestamp};

verus! {

/// Route-scoped cached state owned by constraint modules, keyed by the
/// opaque state keys the modules expose.
pub struct RouteState {
    pub values: Vec<(i32, Timestamp)>,
}

/// Pairs a route with the mutable route-scoped state cached for it.
pub struct RouteContext {
    pub route: Route,
    pub state: RouteState,
}

/// Ghost model of a [`RouteContext`]: the actor and cached state as they
/// are, the tour as an activity sequence.
#[verifier::ext_equal]
pub ghost struct RouteModel {
    pub actor: Actor,
    pub state: RouteState,
    pub activities: Seq<Activity>,
}

impl View for RouteContext {
    type V = RouteModel;

    open spec fn view(&self) -> RouteModel {
        RouteModel {
            actor: self.route.actor,
            state: self.state,
            activities: self.route.tour.activities@,
        }
    }
}

/// Whether some activity of `t` serves the job with identity `id`.
pub open spec fn activities_contain_job_id(t: Seq<Activity>, id: u64) -> bool {
    exists|i: int|
        0 <= i < t.len() && (#[trigger] t[i].job) is Some && t[i].job.unwrap().spec_id() == id
}

/// Every single job served by `t` owns exactly one activity of it: no
/// other activity, of any job shape, shares its identity.
pub open spec fn activities_singles_once(t: Seq<Activity>) -> bool {
    forall|i: int, j: int|
        0 <= i < t.len() && 0 <= j < t.len() && i != j && (#[trigger] t[i].job) is Some
            && t[i].job.unwrap() is Single && (#[trigger] t[j].job) is Some
            ==> t[j].job.unwrap().spec_id() != t[i].job.unwrap().spec_id()
}

impl RouteModel {
    /// Whether some activity of the tour serves the job with identity `id`.
    pub open spec fn has_job_id(self, id: u64) -> bool {
        activities_contain_job_id(self.activities, id)
    }

    /// The identities of all jobs served by the tour.
    pub open spec fn job_ids(self) -> Set<u64> {
        Set::new(|id: u64| self.has_job_id(id))
    }

    /// Every single job of the tour owns exactly one activity: no other
    /// activity, of any job shape, shares its identity.
    pub open spec fn singles_assigned_once(self) -> bool {
        activities_singles_once(self.activities)
    }
}

/// Insertion context for one candidate activity; built once per
/// feasibility check and never persisted.
pub struct ActivityContext {
    /// Activity insertion index.
    pub index: usize,
    /// Previous activity.
    pub prev: Activity,
    /// Candidate target activity.
    pub target: Activity,
    /// Next activity; absent if the tour is open-ended and the target is
    /// inserted last.
    pub next: Option<Activity>,
}

/// The global mutable state of one candidate solution.
pub struct SolutionContext {
    /// Jobs which require permanent assignment this iteration.
    pub required: Vec<Job>,
    /// Jobs which currently do not require assignment and may be ignored.
    pub ignored: Vec<Job>,
    /// Jobs which could not be assigned, each with a reason code.
    pub unassigned: Vec<(Job, i32)>,
    /// The routes of the solution with their cached state.
    pub routes: Vec<RouteContext>,
    /// Record of the vehicle/shift resources in use.
    pub registry: Registry,
}

/// Ghost model of a [`SolutionContext`].
#[verifier::ext_equal]
pub ghost struct SolutionModel {
    pub required: Seq<Job>,
    pub ignored: Seq<Job>,
    pub unassigned: Seq<(Job, i32)>,
    pub routes: Seq<RouteModel>,
    pub registry: Registry,
}

impl View for SolutionContext {
    type V = SolutionModel;

    open spec fn view(&self) -> SolutionModel {
        SolutionModel {
            required: self.required@,
            ignored: self.ignored@,
            unassigned: self.unassigned@,
            routes: self.routes@.map_values(|rc: RouteContext| rc@),
            registry: self.registry,
        }
    }
}

/// Whether `jobs` holds a job with identity `id`.
pub open spec fn jobs_contain_id(jobs: Seq<Job>, id: u64) -> bool {
    exists|i: int| 0 <= i < jobs.len() && (#[trigger] jobs[i].spec_id()) == id
}

/// Whether the identities in `jobs` are pairwise distinct.
pub open spec fn jobs_distinct(jobs: Seq<Job>) -> bool {
    forall|i: int, j: int|
        0 <= i < jobs.len() && 0 <= j < jobs.len() && i != j ==> (#[trigger] jobs[i].spec_id())
            != (#[trigger] jobs[j].spec_id())
}

/// The jobs recorded in an unassigned map, without their reason codes.
pub open spec fn unassigned_jobs(pairs: Seq<(Job, i32)>) -> Seq<Job> {
    pairs.map_values(|p: (Job, i32)| p.0)
}

/// No job identity is served by two different routes of the list.
pub open spec fn routes_pairwise_disjoint(routes: Seq<RouteModel>) -> bool {
    forall|i: int, j: int, id: u64|
        0 <= i < routes.len() && 0 <= j < routes.len() && i != j && #[trigger] routes[i].has_job_id(
            id,
        ) ==> !(#[trigger] routes[j].has_job_id(id))
}

/// An identity occurs in a concatenation of job lists exactly when it
/// occurs in one of the parts.
pub proof fn lemma_jobs_contain_id_concat(a: Seq<Job>, b: Seq<Job>)
    ensures
        forall|id: u64|
            #[trigger] jobs_contain_id(a + b, id) <==> jobs_contain_id(a, id) || jobs_contain_id(
                b,
                id,
            ),
{
    assert forall|id: u64|
        #[trigger] jobs_contain_id(a + b, id) <==> jobs_contain_id(a, id) || jobs_contain_id(
            b,
            id,
        ) by {
        if jobs_contain_id(a + b, id) {
            let i = choose|i: int| 0 <= i < (a + b).len() && (#[trigger] (a + b)[i].spec_id()) == id;
            if i < a.len() {
                assert(a[i].spec_id() == id);
            } else {
                assert(b[i - a.len()].spec_id() == id);
            }
        }
        if jobs_contain_id(a, id) {
            let i = choose|i: int| 0 <= i < a.len() && (#[trigger] a[i].spec_id()) == id;
            assert((a + b)[i].spec_id() == id);
        }
        if jobs_contain_id(b, id) {
            let i = choose|i: int| 0 <= i < b.len() && (#[trigger] b[i].spec_id()) == id;
            assert((a + b)[i + a.len()].spec_id() == id);
        }
    }
}

/// Two job lists with pairwise distinct identities and no identity in
/// common concatenate to a list with pairwise distinct identities.
pub proof fn lemma_jobs_distinct_concat(a: Seq<Job>, b: Seq<Job>)
    requires
        jobs_distinct(a),
        jobs_distinct(b),
        forall|id: u64| !(#[trigger] jobs_contain_id(a, id) && jobs_contain_id(b, id)),
    ensures
        jobs_distinct(a + b),
{
    assert forall|i: int, j: int|
        0 <= i < (a + b).len() && 0 <= j < (a + b).len() && i != j implies (#[trigger] (a
        + b)[i].spec_id()) != (#[trigger] (a + b)[j].spec_id()) by {
        if i < a.len() && j < a.len() {
        } else if i >= a.len() && j >= a.len() {
            assert((a + b)[i] == b[i - a.len()] && (a + b)[j] == b[j - a.len()]);
        } else {
            let ai = if i < a.len() { i } else { j };
            let bj = if i < a.len() { j } else { i };
            assert((a + b)[ai] == a[ai]);
            assert((a + b)[bj] == b[bj - a.len()]);
            let id = a[ai].spec_id();
            if b[bj - a.len()].spec_id() == id {
                assert(jobs_contain_id(a, id));
                assert(jobs_contain_id(b, id));
                assert(false);
            }
        }
    }
}

impl SolutionModel {
    /// The identities of the jobs assigned in some route.
    pub open spec fn assigned_ids(self) -> Set<u64> {
        Set::new(
            |id: u64| exists|i: int| 0 <= i < self.routes.len() && #[trigger] self.routes[i].has_job_id(id),
        )
    }

    /// The partition invariant over the non-placed classes: within each of
    /// `required`, `ignored` and `unassigned` every identity occurs once,
    /// and no identity occurs in two different classes.
    pub open spec fn classes_disjoint(self) -> bool {
        &&& jobs_distinct(self.required)
        &&& jobs_distinct(self.ignored)
        &&& jobs_distinct(unassigned_jobs(self.unassigned))
        &&& forall|id: u64|
            !(jobs_contain_id(self.required, id) && #[trigger] jobs_contain_id(self.ignored, id))
        &&& forall|id: u64|
            !(#[trigger] jobs_contain_id(unassigned_jobs(self.unassigned), id) && (jobs_contain_id(
                self.required,
                id,
            ) || jobs_contain_id(self.ignored, id)))
    }

    /// No identity is served by two different routes, and within each route
    /// a single job owns exactly one activity.
    pub open spec fn routes_disjoint(self) -> bool {
        &&& routes_pairwise_disjoint(self.routes)
        &&& forall|i: int| 0 <= i < self.routes.len() ==> (#[trigger] self.routes[i]).singles_assigned_once()
    }

    /// The full partition invariant: a job identity belongs to at most one
    /// of required, ignored, assigned-in-some-route and unassigned, and to
    /// each at most once.
    pub open spec fn partition_wf(self) -> bool {
        &&& self.classes_disjoint()
        &&& self.routes_disjoint()
        &&& forall|id: u64|
            #[trigger] self.assigned_ids().contains(id) ==> !(jobs_contain_id(self.required, id)
                || jobs_contain_id(self.ignored, id) || jobs_contain_id(
                unassigned_jobs(self.unassigned),
                id,
            ))
    }
}

} // verus!
