//! Generic constraint framework: hard and soft activity constraints, the
//! conditional job module that re-partitions jobs between required and
//! ignored, and the aggregate module contract every constraint module
//! implements.

use core::mem;
use vstd::prelude::*;

use crate::domain::{Cost, Job};
use crate::states::{
    jobs_contain_id, jobs_distinct, lemma_jobs_contain_id_concat, ActivityContext, RouteContext,
    RouteModel, SolutionContext, SolutionModel,
};

verus! {

/// A hard-constraint violation: a stable error code, and whether the whole
/// remaining search for this job should stop instead of merely skipping
/// this position.
#[derive(Clone, Copy, PartialEq, Eq, Structural, Debug)]
pub struct ActivityConstraintViolation {
    pub code: i32,
    pub stopped: bool,
}

/// A feasibility rule consulted for every candidate activity insertion.
/// Evaluation is read-only; `None` means the insertion is feasible.
pub trait HardActivityConstraint: Sized {
    /// The inputs the rule may be consulted on.
    spec fn hard_pre(&self, route: RouteModel, actx: ActivityContext) -> bool;

    /// The verdict of the rule.
    spec fn hard_spec(&self, route: RouteModel, actx: ActivityContext) -> Option<
        ActivityConstraintViolation,
    >;

    /// Evaluates the rule on one candidate insertion.
    fn evaluate_activity(&self, route_ctx: &RouteContext, activity_ctx: &ActivityContext) -> (r:
        Option<ActivityConstraintViolation>)
        requires
            self.hard_pre(route_ctx@, *activity_ctx),
        ensures
            r == self.hard_spec(route_ctx@, *activity_ctx),
    ;
}

/// A cost-shaping rule: a deterministic, read-only cost delta used to rank
/// otherwise-feasible insertion positions.
pub trait SoftActivityConstraint: Sized {
    /// The inputs the rule may be consulted on.
    spec fn soft_pre(&self, route: RouteModel, actx: ActivityContext) -> bool;

    /// The cost contributed by the rule.
    spec fn soft_spec(&self, route: RouteModel, actx: ActivityContext) -> Cost;

    /// Estimates the cost of one candidate insertion.
    fn estimate_activity(&self, route_ctx: &RouteContext, activity_ctx: &ActivityContext) -> (cost:
        Cost)
        requires
            self.soft_pre(route_ctx@, *activity_ctx),
        ensures
            cost == self.soft_spec(route_ctx@, *activity_ctx),
    ;
}

/// The predicate wrapped by a [`ConditionalJobModule`]: whether a job must
/// be assigned given the current route set.
pub trait JobPredicate: Sized {
    /// The jobs the predicate may be asked about.
    spec fn pred_pre(routes: Seq<RouteModel>, job: Job) -> bool;

    /// Whether the job is required.
    spec fn pred(routes: Seq<RouteModel>, job: Job) -> bool;

    /// Decides whether `job` is required in `ctx`.
    fn eval(&self, ctx: &SolutionContext, job: &Job) -> (r: bool)
        requires
            Self::pred_pre(ctx@.routes, *job),
        ensures
            r == Self::pred(ctx@.routes, *job),
    ;
}

/// The ordered hard and soft constraints a module contributes to the
/// aggregate evaluator.
pub struct ConstraintBundle<H, S> {
    pub hards: Vec<H>,
    pub softs: Vec<S>,
}

/// The aggregate hard verdict of `hards` in order: the first violation, or
/// `None` when every rule accepts.
pub open spec fn spec_hard_all<H: HardActivityConstraint>(
    hards: Seq<H>,
    route: RouteModel,
    actx: ActivityContext,
) -> Option<ActivityConstraintViolation>
    decreases hards.len(),
{
    if hards.len() == 0 {
        None
    } else {
        match hards.first().hard_spec(route, actx) {
            Some(v) => Some(v),
            None => spec_hard_all(hards.drop_first(), route, actx),
        }
    }
}

/// The sum of the soft costs of the first `n` rules of `softs`.
pub open spec fn spec_soft_sum<S: SoftActivityConstraint>(
    softs: Seq<S>,
    route: RouteModel,
    actx: ActivityContext,
    n: int,
) -> int
    decreases n,
{
    if n <= 0 {
        0
    } else {
        spec_soft_sum(softs, route, actx, n - 1) + softs[n - 1].soft_spec(route, actx)
    }
}

/// Aggregate hard evaluation: the logical conjunction of all hard rules,
/// reporting the first violation found.
pub fn evaluate_hard_all<H: HardActivityConstraint>(
    hards: &Vec<H>,
    route_ctx: &RouteContext,
    activity_ctx: &ActivityContext,
) -> (r: Option<ActivityConstraintViolation>)
    requires
        forall|k: int| 0 <= k < hards@.len() ==> (#[trigger] hards@[k]).hard_pre(
            route_ctx@,
            *activity_ctx,
        ),
    ensures
        r == spec_hard_all(hards@, route_ctx@, *activity_ctx),
{
    let n = hards.len();
    let mut i: usize = 0;
    proof {
        assert(hards@.skip(0) =~= hards@);
    }
    while i < n
        invariant
            0 <= i <= n,
            n == hards@.len(),
            forall|k: int| 0 <= k < n ==> (#[trigger] hards@[k]).hard_pre(route_ctx@, *activity_ctx),
            spec_hard_all(hards@.skip(i as int), route_ctx@, *activity_ctx) == spec_hard_all(
                hards@,
                route_ctx@,
                *activity_ctx,
            ),
        decreases n - i,
    {
        proof {
            assert(hards@.skip(i as int).first() == hards@[i as int]);
            assert(hards@.skip(i as int).drop_first() =~= hards@.skip(i as int + 1));
        }
        let r = hards[i].evaluate_activity(route_ctx, activity_ctx);
        if r.is_some() {
            return r;
        }
        i = i + 1;
    }
    proof {
        assert(hards@.skip(n as int).len() == 0);
    }
    None
}

/// Aggregate soft evaluation: the sum of the costs of all soft rules.
pub fn estimate_soft_all<S: SoftActivityConstraint>(
    softs: &Vec<S>,
    route_ctx: &RouteContext,
    activity_ctx: &ActivityContext,
) -> (cost: Cost)
    requires
        forall|k: int| 0 <= k < softs@.len() ==> (#[trigger] softs@[k]).soft_pre(
            route_ctx@,
            *activity_ctx,
        ),
        forall|n: int| 0 <= n <= softs@.len() ==> i64::MIN <= #[trigger] spec_soft_sum(
            softs@,
            route_ctx@,
            *activity_ctx,
            n,
        ) <= i64::MAX,
    ensures
        cost == spec_soft_sum(softs@, route_ctx@, *activity_ctx, softs@.len() as int),
{
    let n = softs.len();
    let mut acc: Cost = 0;
    let mut i: usize = 0;
    while i < n
        invariant
            0 <= i <= n,
            n == softs@.len(),
            forall|k: int| 0 <= k < n ==> (#[trigger] softs@[k]).soft_pre(route_ctx@, *activity_ctx),
            forall|m: int| 0 <= m <= n ==> i64::MIN <= #[trigger] spec_soft_sum(
                softs@,
                route_ctx@,
                *activity_ctx,
                m,
            ) <= i64::MAX,
            acc == spec_soft_sum(softs@, route_ctx@, *activity_ctx, i as int),
        decreases n - i,
    {
        let c = softs[i].estimate_activity(route_ctx, activity_ctx);
        proof {
            assert(spec_soft_sum(softs@, route_ctx@, *activity_ctx, i as int + 1) == acc + c);
        }
        acc = acc + c;
        i = i + 1;
    }
    acc
}

/// The jobs of `jobs` the predicate `P` classifies as required, in order.
pub open spec fn classify_required<P: JobPredicate>(
    jobs: Seq<Job>,
    routes: Seq<RouteModel>,
) -> Seq<Job>
    decreases jobs.len(),
{
    if jobs.len() == 0 {
        Seq::empty()
    } else {
        let rest = classify_required::<P>(jobs.drop_last(), routes);
        if P::pred(routes, jobs.last()) {
            rest.push(jobs.last())
        } else {
            rest
        }
    }
}

/// The jobs of `jobs` the predicate `P` classifies as ignored, in order.
pub open spec fn classify_ignored<P: JobPredicate>(
    jobs: Seq<Job>,
    routes: Seq<RouteModel>,
) -> Seq<Job>
    decreases jobs.len(),
{
    if jobs.len() == 0 {
        Seq::empty()
    } else {
        let rest = classify_ignored::<P>(jobs.drop_last(), routes);
        if P::pred(routes, jobs.last()) {
            rest
        } else {
            rest.push(jobs.last())
        }
    }
}

/// Membership in a job list extended by one job.
pub proof fn lemma_jobs_contains_push(s: Seq<Job>, x: Job)
    ensures
        forall|y: Job| #[trigger] s.push(x).contains(y) <==> s.contains(y) || y == x,
{
    assert forall|y: Job| #[trigger] s.push(x).contains(y) <==> s.contains(y) || y == x by {
        if s.push(x).contains(y) {
            let i = choose|i: int| 0 <= i < s.push(x).len() && s.push(x)[i] == y;
            if i < s.len() {
                assert(s[i] == y);
            }
        }
        if s.contains(y) {
            let i = choose|i: int| 0 <= i < s.len() && s[i] == y;
            assert(s.push(x)[i] == y);
        }
        assert(s.push(x)[s.len() as int] == x);
    }
}

/// Identity membership in a job list extended by one job.
pub proof fn lemma_jobs_contain_id_push(s: Seq<Job>, x: Job)
    ensures
        forall|id: u64|
            #[trigger] jobs_contain_id(s.push(x), id) <==> jobs_contain_id(s, id) || x.spec_id()
                == id,
{
    assert forall|id: u64|
        #[trigger] jobs_contain_id(s.push(x), id) <==> jobs_contain_id(s, id) || x.spec_id()
            == id by {
        if jobs_contain_id(s.push(x), id) {
            let i = choose|i: int| 0 <= i < s.push(x).len() && (#[trigger] s.push(x)[i].spec_id())
                == id;
            if i < s.len() {
                assert(s[i].spec_id() == id);
            }
        }
        if jobs_contain_id(s, id) {
            let i = choose|i: int| 0 <= i < s.len() && (#[trigger] s[i].spec_id()) == id;
            assert(s.push(x)[i].spec_id() == id);
        }
        assert(s.push(x)[s.len() as int] == x);
    }
}

/// The two classified lists partition the classified jobs: every job of
/// `jobs` lands in exactly the list its predicate verdict names, nothing
/// else appears, distinct identities stay distinct, and no identity lands
/// in both lists.
pub proof fn lemma_classify_partition<P: JobPredicate>(jobs: Seq<Job>, routes: Seq<RouteModel>)
    ensures
        forall|x: Job|
            #[trigger] classify_required::<P>(jobs, routes).contains(x) <==> (jobs.contains(x)
                && P::pred(routes, x)),
        forall|x: Job|
            #[trigger] classify_ignored::<P>(jobs, routes).contains(x) <==> (jobs.contains(x)
                && !P::pred(routes, x)),
        jobs_distinct(jobs) ==> jobs_distinct(classify_required::<P>(jobs, routes)),
        jobs_distinct(jobs) ==> jobs_distinct(classify_ignored::<P>(jobs, routes)),
        jobs_distinct(jobs) ==> forall|id: u64|
            !(#[trigger] jobs_contain_id(classify_required::<P>(jobs, routes), id)
                && jobs_contain_id(classify_ignored::<P>(jobs, routes), id)),
        forall|id: u64|
            #[trigger] jobs_contain_id(jobs, id) <==> jobs_contain_id(
                classify_required::<P>(jobs, routes),
                id,
            ) || jobs_contain_id(classify_ignored::<P>(jobs, routes), id),
    decreases jobs.len(),
{
    let req = classify_required::<P>(jobs, routes);
    let ign = classify_ignored::<P>(jobs, routes);
    if jobs.len() == 0 {
        assert(forall|x: Job| !jobs.contains(x));
        assert(forall|id: u64| !jobs_contain_id(jobs, id));
    } else {
        let front = jobs.drop_last();
        let last = jobs.last();
        lemma_classify_partition::<P>(front, routes);
        let req0 = classify_required::<P>(front, routes);
        let ign0 = classify_ignored::<P>(front, routes);
        assert(jobs =~= front.push(last));
        lemma_jobs_contains_push(front, last);
        lemma_jobs_contains_push(req0, last);
        lemma_jobs_contains_push(ign0, last);
        lemma_jobs_contain_id_push(front, last);
        lemma_jobs_contain_id_push(req0, last);
        lemma_jobs_contain_id_push(ign0, last);
        if jobs_distinct(jobs) {
            assert(jobs_distinct(front)) by {
                assert(forall|i: int| 0 <= i < front.len() ==> front[i] == jobs[i]);
            }
            // the pushed identity is new to either classified list
            assert forall|k: int| 0 <= k < req0.len() implies (#[trigger] req0[k]).spec_id()
                != last.spec_id() by {
                assert(req0.contains(req0[k]));
                assert(front.contains(req0[k]));
                let j = choose|j: int| 0 <= j < front.len() && front[j] == req0[k];
                assert(jobs[j] == front[j]);
                assert(jobs[jobs.len() - 1] == last);
            }
            assert forall|k: int| 0 <= k < ign0.len() implies (#[trigger] ign0[k]).spec_id()
                != last.spec_id() by {
                assert(ign0.contains(ign0[k]));
                assert(front.contains(ign0[k]));
                let j = choose|j: int| 0 <= j < front.len() && front[j] == ign0[k];
                assert(jobs[j] == front[j]);
                assert(jobs[jobs.len() - 1] == last);
            }
            assert(!jobs_contain_id(req0, last.spec_id()));
            assert(!jobs_contain_id(ign0, last.spec_id()));
            if P::pred(routes, last) {
                assert(jobs_distinct(req)) by {
                    assert(req == req0.push(last));
                    assert(forall|i: int| 0 <= i < req0.len() ==> req[i] == req0[i]);
                    assert(req[req0.len() as int] == last);
                }
            } else {
                assert(jobs_distinct(ign)) by {
                    assert(ign == ign0.push(last));
                    assert(forall|i: int| 0 <= i < ign0.len() ==> ign[i] == ign0[i]);
                    assert(ign[ign0.len() as int] == last);
                }
            }
        }
    }
}

/// Wraps a required-job predicate and, on solution-state acceptance,
/// re-partitions the non-placed jobs between `required` and `ignored`
/// according to it.
pub struct ConditionalJobModule<P: JobPredicate> {
    pub predicate: P,
    pub keys: Vec<i32>,
}

impl<P: JobPredicate> ConditionalJobModule<P> {
    /// A conditional module around `predicate`, owning no route-scoped
    /// cache and therefore no state keys.
    pub fn new(predicate: P) -> (m: ConditionalJobModule<P>)
        ensures
            m.predicate == predicate,
            m.keys@ == Seq::<i32>::empty(),
    {
        ConditionalJobModule { predicate, keys: Vec::new() }
    }

    /// The module owns no route-scoped cache, so a route change leaves the
    /// route context as it is.
    pub fn accept_route_state(&self, ctx: &mut RouteContext)
        ensures
            *final(ctx) == *old(ctx),
    {
    }

    /// Re-partitions `required` and `ignored`: a job for which the
    /// predicate holds is required, every other job is ignored. Relative
    /// order is kept, with previously required jobs ahead of previously
    /// ignored ones; routes, unassigned jobs and the registry are
    /// untouched.
    pub fn accept_solution_state(&self, ctx: &mut SolutionContext)
        requires
            forall|k: int| 0 <= k < old(ctx)@.required.len() ==> P::pred_pre(
                old(ctx)@.routes,
                #[trigger] old(ctx)@.required[k],
            ),
            forall|k: int| 0 <= k < old(ctx)@.ignored.len() ==> P::pred_pre(
                old(ctx)@.routes,
                #[trigger] old(ctx)@.ignored[k],
            ),
        ensures
            final(ctx)@.required == classify_required::<P>(
                old(ctx)@.required + old(ctx)@.ignored,
                old(ctx)@.routes,
            ),
            final(ctx)@.ignored == classify_ignored::<P>(
                old(ctx)@.required + old(ctx)@.ignored,
                old(ctx)@.routes,
            ),
            final(ctx)@.unassigned == old(ctx)@.unassigned,
            final(ctx)@.routes == old(ctx)@.routes,
            final(ctx)@.registry == old(ctx)@.registry,
    {
        let ghost routes_m = ctx@.routes;
        let mut jobs: Vec<Job> = Vec::new();
        mem::swap(&mut jobs, &mut ctx.required);
        let mut moved_ignored: Vec<Job> = Vec::new();
        mem::swap(&mut moved_ignored, &mut ctx.ignored);
        jobs.append(&mut moved_ignored);
        let ghost all = jobs@;
        proof {
            assert(all =~= old(ctx)@.required + old(ctx)@.ignored);
            assert(ctx@.routes =~= routes_m);
        }
        let mut new_required: Vec<Job> = Vec::new();
        let mut new_ignored: Vec<Job> = Vec::new();
        let ghost mut processed: int = 0;
        while jobs.len() > 0
            invariant
                0 <= processed <= all.len(),
                jobs@ == all.subrange(processed, all.len() as int),
                new_required@ == classify_required::<P>(all.subrange(0, processed), routes_m),
                new_ignored@ == classify_ignored::<P>(all.subrange(0, processed), routes_m),
                ctx@.routes == routes_m,
                forall|k: int| 0 <= k < all.len() ==> P::pred_pre(routes_m, #[trigger] all[k]),
                ctx.unassigned == old(ctx).unassigned,
                ctx.routes == old(ctx).routes,
                ctx.registry == old(ctx).registry,
            decreases jobs@.len(),
        {
            let job = jobs.remove(0);
            proof {
                assert(all.subrange(processed, all.len() as int).remove(0) =~= all.subrange(
                    processed + 1,
                    all.len() as int,
                ));
                assert(job == all[processed]);
            }
            let required = self.predicate.eval(ctx, &job);
            proof {
                assert(all.subrange(0, processed + 1).drop_last() =~= all.subrange(0, processed));
                assert(all.subrange(0, processed + 1).last() == all[processed]);
            }
            if required {
                new_required.push(job);
            } else {
                new_ignored.push(job);
            }
            proof {
                processed = processed + 1;
            }
        }
        proof {
            assert(all.subrange(0, all.len() as int) =~= all);
        }
        ctx.required = new_required;
        ctx.ignored = new_ignored;
    }

    /// The state keys contributed by the module: none of its own.
    pub fn state_keys(&self) -> (r: &Vec<i32>)
        ensures
            r@ == self.keys@,
    {
        &self.keys
    }
}

/// The aggregate contract every constraint module implements: the two
/// state-acceptance hooks that may mutate insertion state, the cache
/// invalidation keys the module contributes, and the hard and soft
/// constraints it adds to the aggregate evaluator.
pub trait ConstraintModule: Sized {
    /// The hard-constraint type the module contributes.
    type Hard: HardActivityConstraint;

    /// The soft-constraint type the module contributes.
    type Soft: SoftActivityConstraint;

    /// The route contexts the module accepts.
    spec fn route_pre(&self, ctx: RouteContext) -> bool;

    /// How route-state acceptance relates the new route context to the old
    /// one.
    spec fn route_post(&self, pre: RouteContext, post: RouteContext) -> bool;

    /// Recomputes or invalidates the route-scoped state the module owns;
    /// called after a route's tour changed.
    fn accept_route_state(&self, ctx: &mut RouteContext)
        requires
            self.route_pre(*old(ctx)),
        ensures
            self.route_post(*old(ctx), *final(ctx)),
    ;

    /// The solution states the module accepts.
    spec fn solution_pre(&self, s: SolutionModel) -> bool;

    /// How solution-state acceptance relates the new solution to the old
    /// one.
    spec fn solution_post(&self, pre: SolutionModel, post: SolutionModel) -> bool;

    /// Re-classifies jobs and repairs structural invariants; called after
    /// any batch of route mutations, before the next feasibility round.
    fn accept_solution_state(&self, ctx: &mut SolutionContext)
        requires
            self.solution_pre(old(ctx)@),
        ensures
            self.solution_post(old(ctx)@, final(ctx)@),
    ;

    /// The cache-invalidation keys the module contributes.
    spec fn spec_state_keys(&self) -> Seq<i32>;

    /// Produces the cache-invalidation keys the module contributes.
    fn state_keys(&self) -> (r: &Vec<i32>)
        ensures
            r@ == self.spec_state_keys(),
    ;

    /// The constraints the module contributes.
    spec fn spec_constraints(&self) -> ConstraintBundle<Self::Hard, Self::Soft>;

    /// Produces the constraints the module contributes to the aggregate
    /// evaluator.
    fn get_constraints(&self) -> (r: &ConstraintBundle<Self::Hard, Self::Soft>)
        ensures
            *r == self.spec_constraints(),
    ;
}

} // verus!
