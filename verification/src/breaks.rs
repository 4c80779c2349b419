//! Driver-break constraint module: vehicle/shift binding of break jobs,
//! break eligibility, and the two state-repair passes (orphan-break
//! removal and unassigned-break demotion).
//!
//! A break job is a [`Single`] job tagged with the dimensions
//! `"type"="break"`, `"vehicle_id"` and `"shift_index"`, and defined with
//! exactly one candidate place.

use core::mem;
use vstd::prelude::*;

use crate::constraints::{
    classify_ignored, classify_required, ActivityConstraintViolation, ConditionalJobModule,
    ConstraintBundle, ConstraintModule, HardActivityConstraint, JobPredicate,
    SoftActivityConstraint,
};
use crate::dimens::{string_eq, Dimensions};
use crate::domain::{Activity, Cost, Job, Location, Single, Timestamp, Vehicle};
use crate::states::{
    activities_contain_job_id, activities_singles_once, jobs_contain_id, jobs_distinct,
    lemma_jobs_contain_id_concat, lemma_jobs_distinct_concat, routes_pairwise_disjoint,
    unassigned_jobs, ActivityContext, RouteContext, RouteModel, SolutionContext, SolutionModel,
};

verus! {

/// Whether the single job is tagged as a break.
pub open spec fn spec_is_break_single(s: Single) -> bool {
    s.dimens.spec_get_str("type"@) == Some("break"@)
}

/// The vehicle id a break job is bound to.
pub open spec fn spec_break_vehicle_id(s: Single) -> Seq<char> {
    s.dimens.spec_get_str("vehicle_id"@).unwrap()
}

/// The shift index a break job is bound to.
pub open spec fn spec_break_shift(s: Single) -> usize {
    s.dimens.spec_get_int("shift_index"@).unwrap()
}

/// Well-formedness of a break job: it names its vehicle and shift and has
/// exactly one candidate place. Anything else is a fatal error of problem
/// construction, never accepted by this module.
pub open spec fn spec_break_wf(s: Single) -> bool {
    &&& s.dimens.spec_get_str("vehicle_id"@) is Some
    &&& s.dimens.spec_get_int("shift_index"@) is Some
    &&& s.places@.len() == 1
}

/// Well-formedness of a job handed to the eligibility predicate: a break
/// must be fully tagged.
pub open spec fn spec_job_wf(job: Job) -> bool {
    match job {
        Job::Single(s) => spec_is_break_single(s) ==> spec_break_wf(s),
        Job::Multi(_) => true,
    }
}

/// Well-formedness of a vehicle: it carries an id and a shift index.
pub open spec fn spec_vehicle_wf(v: Vehicle) -> bool {
    &&& v.dimens.spec_get_str("id"@) is Some
    &&& v.dimens.spec_get_int("shift_index"@) is Some
}

/// The id tag of a vehicle.
pub open spec fn spec_vehicle_id(v: Vehicle) -> Seq<char> {
    v.dimens.spec_get_str("id"@).unwrap()
}

/// The shift index tag of a vehicle.
pub open spec fn spec_vehicle_shift(v: Vehicle) -> usize {
    v.dimens.spec_get_int("shift_index"@).unwrap()
}

/// Every route's vehicle is well formed.
pub open spec fn spec_routes_wf(routes: Seq<RouteModel>) -> bool {
    forall|i: int| 0 <= i < routes.len() ==> spec_vehicle_wf((#[trigger] routes[i]).actor.vehicle)
}

/// Whether the route belongs to the given vehicle id and shift index.
pub open spec fn spec_matches_vehicle(rm: RouteModel, id: Seq<char>, shift: usize) -> bool {
    spec_vehicle_id(rm.actor.vehicle) == id && spec_vehicle_shift(rm.actor.vehicle) == shift
}

/// The arrival time of the last activity of the route, or zero for an
/// empty tour.
pub open spec fn spec_end_arrival(rm: RouteModel) -> Timestamp {
    if rm.activities.len() == 0 {
        0
    } else {
        rm.activities.last().schedule.arrival
    }
}

/// Whether the route already runs past the break's window: some candidate
/// window of the break's single place starts strictly before the tour's
/// end arrival.
pub open spec fn spec_is_time(rm: RouteModel, s: Single) -> bool {
    exists|i: int|
        0 <= i < s.places@[0].times@.len() && (#[trigger] s.places@[0].times@[i]).start
            < spec_end_arrival(rm)
}

/// The break job served by the activity, if the activity is a break.
pub open spec fn spec_as_break(a: Activity) -> Option<Single> {
    match a.job {
        Some(Job::Single(s)) => if spec_is_break_single(s) {
            Some(s)
        } else {
            None
        },
        _ => None,
    }
}

/// Whether the job is required: a multi job and a non-break single job
/// always are; a break is required only if some route of its vehicle and
/// shift already runs past one of its windows.
pub open spec fn spec_is_required(routes: Seq<RouteModel>, job: Job) -> bool {
    match job {
        Job::Multi(_) => true,
        Job::Single(s) => !spec_is_break_single(s) || exists|i: int|
            0 <= i < routes.len() && spec_matches_vehicle(
                #[trigger] routes[i],
                spec_break_vehicle_id(s),
                spec_break_shift(s),
            ) && spec_is_time(routes[i], s),
    }
}

/// Whether the single job is tagged as a break.
pub fn is_break_job(job: &Single) -> (r: bool)
    ensures
        r == spec_is_break_single(*job),
{
    match job.dimens.get_str("type") {
        Some(t) => {
            let expected: String = "break".to_owned();
            string_eq(t, &expected)
        },
        None => false,
    }
}

/// The break job served by the activity, if the activity is a break.
pub fn as_break_job<'a>(activity: &'a Activity) -> (r: Option<&'a Single>)
    ensures
        match r {
            Some(s) => spec_as_break(*activity) == Some(*s),
            None => spec_as_break(*activity) is None,
        },
{
    match &activity.job {
        Some(Job::Single(s)) => if is_break_job(s) {
            Some(s)
        } else {
            None
        },
        _ => None,
    }
}

/// The vehicle id a break job is bound to, if tagged.
pub fn get_vehicle_id_from_break<'a>(job: &'a Single) -> (r: Option<&'a String>)
    ensures
        match r {
            Some(s) => job.dimens.spec_get_str("vehicle_id"@) == Some(s@),
            None => job.dimens.spec_get_str("vehicle_id"@) is None,
        },
{
    job.dimens.get_str("vehicle_id")
}

/// The shift index tag of an entity.
pub fn get_shift_index(dimens: &Dimensions) -> (r: usize)
    requires
        dimens.spec_get_int("shift_index"@) is Some,
    ensures
        Some(r) == dimens.spec_get_int("shift_index"@),
{
    dimens.get_int("shift_index").unwrap()
}

/// Whether the route belongs to the given vehicle id and shift index.
pub fn is_correct_vehicle(rc: &RouteContext, target_id: &String, target_shift: usize) -> (r: bool)
    requires
        spec_vehicle_wf(rc.route.actor.vehicle),
    ensures
        r == spec_matches_vehicle(rc@, target_id@, target_shift),
{
    let id = rc.route.actor.vehicle.dimens.get_id().unwrap();
    let shift = get_shift_index(&rc.route.actor.vehicle.dimens);
    string_eq(id, target_id) && shift == target_shift
}

/// Whether the route already runs past one of the break's candidate
/// windows.
pub fn is_time(rc: &RouteContext, break_job: &Single) -> (r: bool)
    requires
        break_job.places@.len() >= 1,
    ensures
        r == spec_is_time(rc@, *break_job),
{
    let arrival: Timestamp = match rc.route.tour.end() {
        Some(a) => a.schedule.arrival,
        None => 0,
    };
    let times = &break_job.places[0].times;
    let n = times.len();
    let mut i: usize = 0;
    while i < n
        invariant
            0 <= i <= n,
            n == times@.len(),
            times@ == break_job.places@[0].times@,
            arrival == spec_end_arrival(rc@),
            forall|k: int| 0 <= k < i ==> (#[trigger] times@[k]).start >= arrival,
        decreases n - i,
    {
        if times[i].start < arrival {
            return true;
        }
        i = i + 1;
    }
    false
}

/// Decides whether the job is required: a break only presses for
/// assignment once a route of its vehicle and shift runs past one of its
/// windows; every other job always does.
pub fn is_required_job(ctx: &SolutionContext, job: &Job) -> (r: bool)
    requires
        spec_routes_wf(ctx@.routes),
        spec_job_wf(*job),
    ensures
        r == spec_is_required(ctx@.routes, *job),
{
    match job {
        Job::Multi(_) => true,
        Job::Single(s) => {
            if !is_break_job(s) {
                true
            } else {
                let vehicle_id = get_vehicle_id_from_break(s).unwrap();
                let shift_index = get_shift_index(&s.dimens);
                let n = ctx.routes.len();
                let mut i: usize = 0;
                while i < n
                    invariant
                        0 <= i <= n,
                        n == ctx@.routes.len(),
                        spec_routes_wf(ctx@.routes),
                        *job is Single,
                        *s == (*job)->Single_0,
                        spec_is_break_single(*s),
                        s.places@.len() >= 1,
                        vehicle_id@ == spec_break_vehicle_id(*s),
                        shift_index == spec_break_shift(*s),
                        forall|k: int| 0 <= k < i ==> !(spec_matches_vehicle(
                            #[trigger] ctx@.routes[k],
                            spec_break_vehicle_id(*s),
                            spec_break_shift(*s),
                        ) && spec_is_time(ctx@.routes[k], *s)),
                    decreases n - i,
                {
                    let rc = &ctx.routes[i];
                    proof {
                        assert(rc@ == ctx@.routes[i as int]);
                        assert(spec_vehicle_wf(ctx@.routes[i as int].actor.vehicle));
                    }
                    if is_correct_vehicle(rc, vehicle_id, shift_index) && is_time(rc, s) {
                        proof {
                            assert(exists|k: int|
                                0 <= k < ctx@.routes.len() && spec_matches_vehicle(
                                    #[trigger] ctx@.routes[k],
                                    spec_break_vehicle_id(*s),
                                    spec_break_shift(*s),
                                ) && spec_is_time(ctx@.routes[k], *s)) by {
                                assert(spec_matches_vehicle(
                                    ctx@.routes[i as int],
                                    spec_break_vehicle_id(*s),
                                    spec_break_shift(*s),
                                ) && spec_is_time(ctx@.routes[i as int], *s));
                            }
                        }
                        return true;
                    }
                    i = i + 1;
                }
                false
            }
        },
    }
}

/// The eligibility predicate of the break module, wrapped by its
/// conditional job module.
pub struct BreakJobPredicate;

impl JobPredicate for BreakJobPredicate {
    open spec fn pred_pre(routes: Seq<RouteModel>, job: Job) -> bool {
        spec_routes_wf(routes) && spec_job_wf(job)
    }

    open spec fn pred(routes: Seq<RouteModel>, job: Job) -> bool {
        spec_is_required(routes, job)
    }

    fn eval(&self, ctx: &SolutionContext, job: &Job) -> (r: bool) {
        is_required_job(ctx, job)
    }
}

/// The verdict of the break hard constraint: a break right after the
/// departure is rejected, a break on a route of another vehicle or shift
/// is rejected, and everything else passes.
pub open spec fn spec_evaluate_break_hard(
    code: i32,
    rm: RouteModel,
    actx: ActivityContext,
) -> Option<ActivityConstraintViolation> {
    match spec_as_break(actx.target) {
        Some(b) => if actx.prev.job is None {
            Some(ActivityConstraintViolation { code, stopped: false })
        } else if !spec_matches_vehicle(rm, spec_break_vehicle_id(b), spec_break_shift(b)) {
            Some(ActivityConstraintViolation { code, stopped: false })
        } else {
            None
        },
        None => None,
    }
}

/// Hard rule locking breaks to their vehicle and shift and to positions
/// with a real predecessor.
pub struct BreakHardActivityConstraint {
    pub code: i32,
}

impl BreakHardActivityConstraint {
    /// The violation the rule reports: its configured code, never asking
    /// the search to abandon the job.
    pub fn stop(&self) -> (r: Option<ActivityConstraintViolation>)
        ensures
            r == Some(ActivityConstraintViolation { code: self.code, stopped: false }),
    {
        Some(ActivityConstraintViolation { code: self.code, stopped: false })
    }
}

impl HardActivityConstraint for BreakHardActivityConstraint {
    open spec fn hard_pre(&self, route: RouteModel, actx: ActivityContext) -> bool {
        spec_vehicle_wf(route.actor.vehicle) && match spec_as_break(actx.target) {
            Some(b) => spec_break_wf(b),
            None => true,
        }
    }

    open spec fn hard_spec(&self, route: RouteModel, actx: ActivityContext) -> Option<
        ActivityConstraintViolation,
    > {
        spec_evaluate_break_hard(self.code, route, actx)
    }

    fn evaluate_activity(&self, route_ctx: &RouteContext, activity_ctx: &ActivityContext) -> (r:
        Option<ActivityConstraintViolation>) {
        let break_job = as_break_job(&activity_ctx.target);
        if let Some(b) = break_job {
            // avoid assigning a break right after departure
            if activity_ctx.prev.job.is_none() {
                return self.stop();
            }
            // lock the break to its specific vehicle and shift
            let vehicle_id = get_vehicle_id_from_break(b).unwrap();
            let shift_index = get_shift_index(&b.dimens);
            if !is_correct_vehicle(route_ctx, vehicle_id, shift_index) {
                return self.stop();
            }
        }
        None
    }
}

/// Hard-constraint soundness: a break with no real predecessor is always
/// rejected, a break on a route of a foreign vehicle or shift is always
/// rejected, and a break with a real predecessor on its matching route is
/// accepted, as is every non-break target. Every rejection reports the
/// configured code and is position-local, never abandoning the job.
pub proof fn lemma_hard_constraint_soundness(
    c: BreakHardActivityConstraint,
    rm: RouteModel,
    actx: ActivityContext,
)
    ensures
        spec_as_break(actx.target) is Some && actx.prev.job is None ==> c.hard_spec(rm, actx)
            == Some(ActivityConstraintViolation { code: c.code, stopped: false }),
        spec_as_break(actx.target) is Some && actx.prev.job is Some && !spec_matches_vehicle(
            rm,
            spec_break_vehicle_id(spec_as_break(actx.target).unwrap()),
            spec_break_shift(spec_as_break(actx.target).unwrap()),
        ) ==> c.hard_spec(rm, actx) == Some(
            ActivityConstraintViolation { code: c.code, stopped: false },
        ),
        spec_as_break(actx.target) is Some && actx.prev.job is Some && spec_matches_vehicle(
            rm,
            spec_break_vehicle_id(spec_as_break(actx.target).unwrap()),
            spec_break_shift(spec_as_break(actx.target).unwrap()),
        ) ==> c.hard_spec(rm, actx) is None,
        spec_as_break(actx.target) is None ==> c.hard_spec(rm, actx) is None,
{
}

/// The cost of the break soft constraint: the configured extra cost for a
/// break target, zero otherwise.
pub open spec fn spec_estimate_break_soft(extra: Option<Cost>, actx: ActivityContext) -> Cost {
    match extra {
        Some(cost) => if spec_as_break(actx.target) is Some {
            cost
        } else {
            0
        },
        None => 0,
    }
}

/// Soft rule biasing the search away from inserting breaks unless the
/// time penalty elsewhere justifies it.
pub struct BreakSoftActivityConstraint {
    /// The extra cost of inserting a break; no bias when absent.
    pub extra_break_cost: Option<Cost>,
}

impl SoftActivityConstraint for BreakSoftActivityConstraint {
    open spec fn soft_pre(&self, route: RouteModel, actx: ActivityContext) -> bool {
        true
    }

    open spec fn soft_spec(&self, route: RouteModel, actx: ActivityContext) -> Cost {
        spec_estimate_break_soft(self.extra_break_cost, actx)
    }

    fn estimate_activity(&self, route_ctx: &RouteContext, activity_ctx: &ActivityContext) -> (cost:
        Cost) {
        match self.extra_break_cost {
            Some(cost) => if as_break_job(&activity_ctx.target).is_some() {
                cost
            } else {
                0
            },
            None => 0,
        }
    }
}

/// The location preceding position `i` of a tour walk: the previous
/// activity's location, or the zero location ahead of the departure.
pub open spec fn spec_prev_location(t: Seq<Activity>, i: int) -> Location {
    if i == 0 {
        0
    } else {
        t[i - 1].place.location
    }
}

/// Whether the activity at position `i` is an orphaned break: a break
/// whose job has no fixed location of its own and whose location differs
/// from the immediately preceding activity's location.
pub open spec fn spec_is_orphan_at(t: Seq<Activity>, i: int) -> bool {
    &&& spec_as_break(t[i]) is Some
    &&& spec_as_break(t[i]).unwrap().places@[0].location is None
    &&& t[i].place.location != spec_prev_location(t, i)
}

/// The first `n` activities of the tour that survive orphan removal, in
/// order.
pub open spec fn spec_surviving(t: Seq<Activity>, n: int) -> Seq<Activity>
    decreases n,
{
    if n <= 0 {
        Seq::empty()
    } else {
        let rest = spec_surviving(t, n - 1);
        if spec_is_orphan_at(t, n - 1) {
            rest
        } else {
            rest.push(t[n - 1])
        }
    }
}

/// The jobs of the orphaned breaks among the first `n` activities, in
/// order.
pub open spec fn spec_orphan_jobs(t: Seq<Activity>, n: int) -> Seq<Job>
    decreases n,
{
    if n <= 0 {
        Seq::empty()
    } else {
        let rest = spec_orphan_jobs(t, n - 1);
        if spec_is_orphan_at(t, n - 1) {
            rest.push(t[n - 1].job.unwrap())
        } else {
            rest
        }
    }
}

/// One route after orphan-break removal.
pub open spec fn spec_repair_route(rm: RouteModel) -> RouteModel {
    RouteModel { activities: spec_surviving(rm.activities, rm.activities.len() as int), ..rm }
}

/// The orphaned break jobs of the first `n` routes, route by route.
pub open spec fn spec_all_orphans(routes: Seq<RouteModel>, n: int) -> Seq<Job>
    decreases n,
{
    if n <= 0 {
        Seq::empty()
    } else {
        spec_all_orphans(routes, n - 1) + spec_orphan_jobs(
            routes[n - 1].activities,
            routes[n - 1].activities.len() as int,
        )
    }
}

/// The whole solution after orphan-break removal: every tour loses its
/// orphaned breaks, whose jobs are re-added to `required`.
pub open spec fn spec_remove_orphans(m: SolutionModel) -> SolutionModel {
    SolutionModel {
        required: m.required + spec_all_orphans(m.routes, m.routes.len() as int),
        routes: m.routes.map_values(|rm: RouteModel| spec_repair_route(rm)),
        ..m
    }
}

/// Every break activity of the tour has exactly one candidate place;
/// anything else is a fatal invariant error.
pub open spec fn spec_tour_breaks_wf(t: Seq<Activity>) -> bool {
    forall|i: int|
        0 <= i < t.len() && (#[trigger] spec_as_break(t[i])) is Some ==> spec_as_break(
            t[i],
        ).unwrap().places@.len() == 1
}

/// Every tour of the solution satisfies [`spec_tour_breaks_wf`].
pub open spec fn spec_solution_tours_wf(m: SolutionModel) -> bool {
    forall|r: int| 0 <= r < m.routes.len() ==> spec_tour_breaks_wf((#[trigger] m.routes[r]).activities)
}

/// Removes the orphaned breaks of one route's tour and hands their jobs
/// back, in tour order.
fn repair_route_context(rc: &mut RouteContext) -> (orphans: Vec<Job>)
    requires
        spec_tour_breaks_wf(old(rc).route.tour.activities@),
    ensures
        final(rc)@ == spec_repair_route(old(rc)@),
        orphans@ == spec_orphan_jobs(
            old(rc).route.tour.activities@,
            old(rc).route.tour.activities@.len() as int,
        ),
{
    let mut orig: Vec<Activity> = Vec::new();
    mem::swap(&mut orig, &mut rc.route.tour.activities);
    let ghost t = orig@;
    let mut kept: Vec<Activity> = Vec::new();
    let mut orphans: Vec<Job> = Vec::new();
    let mut prev_loc: Location = 0;
    let ghost mut i: int = 0;
    while orig.len() > 0
        invariant
            0 <= i <= t.len(),
            orig@ == t.subrange(i, t.len() as int),
            kept@ == spec_surviving(t, i),
            orphans@ == spec_orphan_jobs(t, i),
            prev_loc == spec_prev_location(t, i),
            spec_tour_breaks_wf(t),
            rc.route.tour.activities@.len() == 0,
            rc.route.actor == old(rc).route.actor,
            rc.state == old(rc).state,
        decreases orig@.len(),
    {
        let act = orig.remove(0);
        proof {
            assert(t.subrange(i, t.len() as int).remove(0) =~= t.subrange(i + 1, t.len() as int));
            assert(act == t[i]);
        }
        let loc = act.place.location;
        let is_orphan: bool = match as_break_job(&act) {
            Some(b) => {
                proof {
                    assert(spec_as_break(t[i]) is Some);
                    assert(b.places@.len() == 1);
                }
                b.places[0].location.is_none() && prev_loc != loc
            },
            None => false,
        };
        proof {
            assert(is_orphan == spec_is_orphan_at(t, i));
        }
        if is_orphan {
            proof {
                assert(act.job is Some);
            }
            orphans.push(act.job.unwrap());
        } else {
            kept.push(act);
        }
        prev_loc = loc;
        proof {
            i = i + 1;
        }
    }
    proof {
        assert(i == t.len());
    }
    rc.route.tour.activities = kept;
    proof {
        assert(rc@ =~~= spec_repair_route(old(rc)@));
    }
    orphans
}

/// Removes breaks that lost the real stop they inherited their location
/// from: left-overs of ruin steps that removed the original job but kept
/// the break. Every orphaned break leaves its tour and its job is
/// re-added to `required` so the search can place it again.
pub fn remove_orphan_breaks(ctx: &mut SolutionContext)
    requires
        spec_solution_tours_wf(old(ctx)@),
    ensures
        final(ctx)@ == spec_remove_orphans(old(ctx)@),
{
    let ghost m = ctx@;
    let mut pending: Vec<RouteContext> = Vec::new();
    mem::swap(&mut pending, &mut ctx.routes);
    let ghost rs = pending@;
    let mut done: Vec<RouteContext> = Vec::new();
    let ghost mut i: int = 0;
    while pending.len() > 0
        invariant
            0 <= i <= rs.len(),
            pending@ == rs.subrange(i, rs.len() as int),
            rs.map_values(|rc: RouteContext| rc@) == m.routes,
            done@.len() == i,
            forall|k: int| 0 <= k < i ==> (#[trigger] done@[k])@ == spec_repair_route(m.routes[k]),
            ctx.required@ == m.required + spec_all_orphans(m.routes, i),
            ctx.ignored == old(ctx).ignored,
            ctx.unassigned == old(ctx).unassigned,
            ctx.registry == old(ctx).registry,
            ctx.routes@.len() == 0,
            spec_solution_tours_wf(m),
        decreases pending@.len(),
    {
        let mut rc = pending.remove(0);
        proof {
            assert(rs.subrange(i, rs.len() as int).remove(0) =~= rs.subrange(
                i + 1,
                rs.len() as int,
            ));
            assert(rc == rs[i]);
            assert(rc@ == m.routes[i]);
            assert(spec_tour_breaks_wf(m.routes[i].activities));
        }
        let mut orphans = repair_route_context(&mut rc);
        done.push(rc);
        ctx.required.append(&mut orphans);
        proof {
            i = i + 1;
            assert(ctx.required@ =~= m.required + spec_all_orphans(m.routes, i));
        }
    }
    ctx.routes = done;
    proof {
        assert(ctx@.routes =~= spec_remove_orphans(m).routes);
        assert(ctx@ =~~= spec_remove_orphans(m));
    }
}

/// Whether an unassigned entry records a break job.
pub open spec fn spec_pair_is_break(p: (Job, i32)) -> bool {
    match p.0 {
        Job::Single(s) => spec_is_break_single(s),
        Job::Multi(_) => false,
    }
}

/// The first `n` unassigned entries that survive demotion: those not
/// recording a break.
pub open spec fn spec_kept_unassigned(s: Seq<(Job, i32)>, n: int) -> Seq<(Job, i32)>
    decreases n,
{
    if n <= 0 {
        Seq::empty()
    } else {
        let rest = spec_kept_unassigned(s, n - 1);
        if spec_pair_is_break(s[n - 1]) {
            rest
        } else {
            rest.push(s[n - 1])
        }
    }
}

/// The break jobs among the first `n` unassigned entries, in order.
pub open spec fn spec_demoted_breaks(s: Seq<(Job, i32)>, n: int) -> Seq<Job>
    decreases n,
{
    if n <= 0 {
        Seq::empty()
    } else {
        let rest = spec_demoted_breaks(s, n - 1);
        if spec_pair_is_break(s[n - 1]) {
            rest.push(s[n - 1].0)
        } else {
            rest
        }
    }
}

/// The whole solution after unassigned-break demotion: break jobs leave
/// `unassigned` and join `ignored`.
pub open spec fn spec_demote(m: SolutionModel) -> SolutionModel {
    SolutionModel {
        unassigned: spec_kept_unassigned(m.unassigned, m.unassigned.len() as int),
        ignored: m.ignored + spec_demoted_breaks(m.unassigned, m.unassigned.len() as int),
        ..m
    }
}

/// Moves every break job recorded in `unassigned` into `ignored`: an
/// unplaceable break is not a failure worth reporting, it simply is not
/// needed by any route yet.
pub fn demote_unassigned_breaks(ctx: &mut SolutionContext)
    ensures
        final(ctx)@ == spec_demote(old(ctx)@),
{
    let ghost m = ctx@;
    let mut pairs: Vec<(Job, i32)> = Vec::new();
    mem::swap(&mut pairs, &mut ctx.unassigned);
    let ghost u = pairs@;
    let mut kept: Vec<(Job, i32)> = Vec::new();
    let ghost mut i: int = 0;
    while pairs.len() > 0
        invariant
            0 <= i <= u.len(),
            pairs@ == u.subrange(i, u.len() as int),
            kept@ == spec_kept_unassigned(u, i),
            ctx.ignored@ == m.ignored + spec_demoted_breaks(u, i),
            ctx.required == old(ctx).required,
            ctx.routes == old(ctx).routes,
            ctx.registry == old(ctx).registry,
            ctx.unassigned@.len() == 0,
        decreases pairs@.len(),
    {
        let pair = pairs.remove(0);
        proof {
            assert(u.subrange(i, u.len() as int).remove(0) =~= u.subrange(i + 1, u.len() as int));
            assert(pair == u[i]);
        }
        let is_break = match &pair.0 {
            Job::Single(s) => is_break_job(s),
            Job::Multi(_) => false,
        };
        if is_break {
            ctx.ignored.push(pair.0);
            proof {
                assert(ctx.ignored@ =~= m.ignored + spec_demoted_breaks(u, i + 1));
            }
        } else {
            kept.push(pair);
        }
        proof {
            i = i + 1;
        }
    }
    ctx.unassigned = kept;
    proof {
        assert(ctx@ =~~= spec_demote(m));
    }
}

/// No break activity of the tour directly follows another break
/// activity.
pub open spec fn spec_no_adjacent_breaks(t: Seq<Activity>) -> bool {
    forall|i: int|
        1 <= i < t.len() && (#[trigger] spec_as_break(t[i])) is Some ==> spec_as_break(t[i - 1])
            is None
}

/// The tail invariant of one orphan-removal walk: if anything survived,
/// the last survivor is a non-orphan original activity and everything
/// after it up to the walk front was an orphan.
spec fn spec_clean_tail(t: Seq<Activity>, n: int, s: Seq<Activity>) -> bool {
    s.len() > 0 ==> exists|j: int|
        0 <= j < n && s.last() == t[j] && !spec_is_orphan_at(t, j) && (forall|p: int|
            j < p < n ==> spec_is_orphan_at(t, p))
}

/// On a tour without adjacent breaks, the survivors of orphan removal
/// contain no orphan of their own: a surviving break keeps its original
/// predecessor, because that predecessor is no break and no break is ever
/// removed unless it is one.
proof fn lemma_surviving_clean(t: Seq<Activity>, n: int)
    requires
        0 <= n <= t.len(),
        spec_no_adjacent_breaks(t),
    ensures
        forall|k: int|
            0 <= k < spec_surviving(t, n).len() ==> !spec_is_orphan_at(spec_surviving(t, n), k),
        spec_surviving(t, n).len() == 0 ==> forall|j: int| 0 <= j < n ==> spec_is_orphan_at(t, j),
        spec_clean_tail(t, n, spec_surviving(t, n)),
    decreases n,
{
    if n == 0 {
        return ;
    }
    lemma_surviving_clean(t, n - 1);
    let s0 = spec_surviving(t, n - 1);
    let s1 = spec_surviving(t, n);
    if spec_is_orphan_at(t, n - 1) {
        assert(s1 == s0);
        if s0.len() > 0 {
            let j = choose|j: int|
                0 <= j < n - 1 && s0.last() == t[j] && !spec_is_orphan_at(t, j) && (forall|p: int|
                    j < p < n - 1 ==> spec_is_orphan_at(t, p));
            assert(forall|p: int| j < p < n ==> spec_is_orphan_at(t, p));
        }
    } else {
        assert(s1 == s0.push(t[n - 1]));
        assert(forall|k: int| 0 <= k < s0.len() ==> s1[k] == s0[k]);
        // earlier positions keep their verdicts
        assert forall|k: int| 0 <= k < s1.len() implies !spec_is_orphan_at(s1, k) by {
            if k < s0.len() {
                assert(spec_prev_location(s1, k) == spec_prev_location(s0, k));
                assert(!spec_is_orphan_at(s0, k));
            } else {
                // the pushed activity: its predecessor in the survivors
                // carries the same location as its original predecessor
                assert(s1[k] == t[n - 1]);
                if spec_as_break(t[n - 1]) is Some {
                    if n - 1 == 0 {
                        assert(s0.len() == 0);
                        assert(spec_prev_location(s1, k) == spec_prev_location(t, n - 1));
                    } else {
                        // the direct predecessor is no break, hence no
                        // orphan, hence the last survivor
                        assert(spec_as_break(t[n - 2]) is None);
                        assert(!spec_is_orphan_at(t, n - 2));
                        if s0.len() == 0 {
                            assert(spec_is_orphan_at(t, n - 2));
                            assert(false);
                        }
                        let j = choose|j: int|
                            0 <= j < n - 1 && s0.last() == t[j] && !spec_is_orphan_at(t, j) && (
                            forall|p: int| j < p < n - 1 ==> spec_is_orphan_at(t, p));
                        if j < n - 2 {
                            assert(spec_is_orphan_at(t, n - 2));
                            assert(false);
                        }
                        assert(s0.last() == t[n - 2]);
                        assert(spec_prev_location(s1, k) == spec_prev_location(t, n - 1));
                    }
                    assert(!spec_is_orphan_at(t, n - 1));
                }
            }
        }
        assert(spec_clean_tail(t, n, s1)) by {
            assert(0 <= n - 1 < n && s1.last() == t[n - 1] && !spec_is_orphan_at(t, n - 1) && (
            forall|p: int| n - 1 < p < n ==> spec_is_orphan_at(t, p)));
        }
    }
}

/// On a tour without orphans, orphan removal keeps every activity and
/// collects nothing.
proof fn lemma_no_orphans_identity(s: Seq<Activity>, n: int)
    requires
        0 <= n <= s.len(),
        forall|k: int| 0 <= k < s.len() ==> !spec_is_orphan_at(s, k),
    ensures
        spec_surviving(s, n) == s.subrange(0, n),
        spec_orphan_jobs(s, n) == Seq::<Job>::empty(),
    decreases n,
{
    if n == 0 {
        assert(spec_surviving(s, n) =~= s.subrange(0, n));
    } else {
        lemma_no_orphans_identity(s, n - 1);
        assert(spec_surviving(s, n) =~= s.subrange(0, n));
    }
}

/// The orphans collected over routes whose tours yield none are none.
proof fn lemma_all_orphans_empty(routes: Seq<RouteModel>, n: int)
    requires
        0 <= n <= routes.len(),
        forall|r: int|
            0 <= r < n ==> spec_orphan_jobs(
                (#[trigger] routes[r]).activities,
                routes[r].activities.len() as int,
            ) == Seq::<Job>::empty(),
    ensures
        spec_all_orphans(routes, n) == Seq::<Job>::empty(),
    decreases n,
{
    if n > 0 {
        lemma_all_orphans_empty(routes, n - 1);
        assert(spec_all_orphans(routes, n) =~= Seq::<Job>::empty());
    }
}

/// Orphan-break repair is idempotent: on a solution whose tours never
/// place one break directly after another, running orphan removal twice
/// yields the same required set and the same tours as running it once —
/// no break is removed twice and a consistent tour loses nothing.
pub proof fn lemma_orphan_repair_idempotent(m: SolutionModel)
    requires
        forall|r: int|
            0 <= r < m.routes.len() ==> spec_no_adjacent_breaks(
                (#[trigger] m.routes[r]).activities,
            ),
    ensures
        spec_remove_orphans(spec_remove_orphans(m)) == spec_remove_orphans(m),
{
    let m1 = spec_remove_orphans(m);
    assert forall|r: int| 0 <= r < m1.routes.len() implies spec_repair_route(#[trigger] m1.routes[r])
        == m1.routes[r] && spec_orphan_jobs(
        m1.routes[r].activities,
        m1.routes[r].activities.len() as int,
    ) == Seq::<Job>::empty() by {
        let t = m.routes[r].activities;
        lemma_surviving_clean(t, t.len() as int);
        let s = spec_surviving(t, t.len() as int);
        assert(m1.routes[r].activities == s);
        lemma_no_orphans_identity(s, s.len() as int);
        assert(s.subrange(0, s.len() as int) =~= s);
        assert(spec_repair_route(m1.routes[r]) =~~= m1.routes[r]);
    }
    lemma_all_orphans_empty(m1.routes, m1.routes.len() as int);
    assert(m1.required + Seq::<Job>::empty() =~= m1.required);
    assert(spec_remove_orphans(m1).routes =~= m1.routes);
    assert(spec_remove_orphans(m1) =~~= m1);
}

/// The solution after the conditional pass of the break module: the
/// non-placed jobs re-partitioned by the eligibility predicate.
pub open spec fn spec_conditional_accept(m: SolutionModel) -> SolutionModel {
    SolutionModel {
        required: classify_required::<BreakJobPredicate>(m.required + m.ignored, m.routes),
        ignored: classify_ignored::<BreakJobPredicate>(m.required + m.ignored, m.routes),
        ..m
    }
}

/// The solution after the break module accepted it: the conditional pass,
/// followed — only when it leaves `required` empty, i.e. when a full
/// classification pass is due — by orphan removal and, when enabled, by
/// unassigned-break demotion.
pub open spec fn spec_break_accept(demote: bool, m: SolutionModel) -> SolutionModel {
    let c = spec_conditional_accept(m);
    if c.required.len() == 0 {
        let r = spec_remove_orphans(c);
        if demote {
            spec_demote(r)
        } else {
            r
        }
    } else {
        c
    }
}

/// The jobs a solution hands to the break module are well formed: every
/// route's vehicle is tagged, every non-placed break is fully tagged, and
/// every break activity has exactly one place.
pub open spec fn spec_break_solution_wf(m: SolutionModel) -> bool {
    &&& spec_routes_wf(m.routes)
    &&& forall|k: int| 0 <= k < m.required.len() ==> spec_job_wf(#[trigger] m.required[k])
    &&& forall|k: int| 0 <= k < m.ignored.len() ==> spec_job_wf(#[trigger] m.ignored[k])
    &&& spec_solution_tours_wf(m)
}

/// Constraint module for driver breaks: composes the eligibility
/// predicate, one hard rule, one soft rule and the two state-repair
/// passes.
pub struct BreakModule {
    pub conditional: ConditionalJobModule<BreakJobPredicate>,
    pub constraints: ConstraintBundle<BreakHardActivityConstraint, BreakSoftActivityConstraint>,
    /// Controls whether an unplaceable break is hidden from the
    /// unassigned-job report.
    pub demote_breaks_from_unassigned: bool,
}

impl BreakModule {
    /// A break module reporting `code` on hard rejection, biasing break
    /// insertion by `extra_break_cost` when given, and demoting
    /// unplaceable breaks when `demote_breaks_from_unassigned` is set.
    pub fn new(code: i32, extra_break_cost: Option<Cost>, demote_breaks_from_unassigned: bool) -> (m:
        BreakModule)
        ensures
            m.demote_breaks_from_unassigned == demote_breaks_from_unassigned,
            m.conditional.keys@ == Seq::<i32>::empty(),
            m.constraints.hards@ == seq![BreakHardActivityConstraint { code }],
            m.constraints.softs@ == seq![BreakSoftActivityConstraint { extra_break_cost }],
    {
        let mut hards: Vec<BreakHardActivityConstraint> = Vec::new();
        hards.push(BreakHardActivityConstraint { code });
        let mut softs: Vec<BreakSoftActivityConstraint> = Vec::new();
        softs.push(BreakSoftActivityConstraint { extra_break_cost });
        proof {
            assert(hards@ =~= seq![BreakHardActivityConstraint { code }]);
            assert(softs@ =~= seq![BreakSoftActivityConstraint { extra_break_cost }]);
        }
        BreakModule {
            conditional: ConditionalJobModule::new(BreakJobPredicate),
            constraints: ConstraintBundle { hards, softs },
            demote_breaks_from_unassigned,
        }
    }
}

impl ConstraintModule for BreakModule {
    type Hard = BreakHardActivityConstraint;

    type Soft = BreakSoftActivityConstraint;

    open spec fn route_pre(&self, ctx: RouteContext) -> bool {
        true
    }

    /// The module owns no route-scoped cache: a route change leaves the
    /// route context as it is.
    open spec fn route_post(&self, pre: RouteContext, post: RouteContext) -> bool {
        post == pre
    }

    fn accept_route_state(&self, ctx: &mut RouteContext) {
        self.conditional.accept_route_state(ctx);
    }

    open spec fn solution_pre(&self, s: SolutionModel) -> bool {
        spec_break_solution_wf(s)
    }

    open spec fn solution_post(&self, pre: SolutionModel, post: SolutionModel) -> bool {
        post == spec_break_accept(self.demote_breaks_from_unassigned, pre)
    }

    fn accept_solution_state(&self, ctx: &mut SolutionContext) {
        let ghost m = ctx@;
        self.conditional.accept_solution_state(ctx);
        proof {
            assert(ctx@ =~~= spec_conditional_accept(m));
        }
        if ctx.required.is_empty() {
            remove_orphan_breaks(ctx);
            if self.demote_breaks_from_unassigned {
                demote_unassigned_breaks(ctx);
            }
        }
    }

    open spec fn spec_state_keys(&self) -> Seq<i32> {
        self.conditional.keys@
    }

    fn state_keys(&self) -> (r: &Vec<i32>) {
        self.conditional.state_keys()
    }

    open spec fn spec_constraints(&self) -> ConstraintBundle<
        BreakHardActivityConstraint,
        BreakSoftActivityConstraint,
    > {
        self.constraints
    }

    fn get_constraints(&self) -> (r: &ConstraintBundle<
        BreakHardActivityConstraint,
        BreakSoftActivityConstraint,
    >) {
        &self.constraints
    }
}


/// Some non-orphan position of the first `n` holds this activity.
pub open spec fn spec_surviving_witness(t: Seq<Activity>, n: int, a: Activity) -> bool {
    exists|j: int| 0 <= j < n && !(#[trigger] spec_is_orphan_at(t, j)) && a == t[j]
}

/// Some orphan position of the first `n` serves this job.
pub open spec fn spec_orphan_witness(t: Seq<Activity>, n: int, x: Job) -> bool {
    exists|j: int|
        0 <= j < n && (#[trigger] spec_is_orphan_at(t, j)) && t[j].job is Some && x == t[
        j].job.unwrap()
}

/// Where each result of one orphan-removal walk comes from: survivors are
/// the non-orphan activities, collected jobs are the orphans' jobs, and a
/// tour serving each single job once keeps doing so and yields pairwise
/// distinct orphan jobs.
proof fn lemma_orphan_route(t: Seq<Activity>, n: int)
    requires
        0 <= n <= t.len(),
    ensures
        forall|k: int|
            0 <= k < spec_surviving(t, n).len() ==> spec_surviving_witness(
                t,
                n,
                #[trigger] spec_surviving(t, n)[k],
            ),
        forall|k: int|
            0 <= k < spec_orphan_jobs(t, n).len() ==> spec_orphan_witness(
                t,
                n,
                #[trigger] spec_orphan_jobs(t, n)[k],
            ),
        activities_singles_once(t) ==> jobs_distinct(spec_orphan_jobs(t, n)),
        activities_singles_once(t) ==> activities_singles_once(spec_surviving(t, n)),
    decreases n,
{
    if n == 0 {
        return ;
    }
    lemma_orphan_route(t, n - 1);
    let s0 = spec_surviving(t, n - 1);
    let s1 = spec_surviving(t, n);
    let o0 = spec_orphan_jobs(t, n - 1);
    let o1 = spec_orphan_jobs(t, n);
    assert forall|k: int| 0 <= k < s0.len() implies spec_surviving_witness(t, n, s0[k]) by {
        let j = choose|j: int| 0 <= j < n - 1 && !(#[trigger] spec_is_orphan_at(t, j)) && s0[k]
            == t[j];
        assert(0 <= j < n && !spec_is_orphan_at(t, j) && s0[k] == t[j]);
    }
    assert forall|k: int| 0 <= k < o0.len() implies spec_orphan_witness(t, n, o0[k]) by {
        let j = choose|j: int|
            0 <= j < n - 1 && (#[trigger] spec_is_orphan_at(t, j)) && t[j].job is Some && o0[k]
                == t[j].job.unwrap();
        assert(0 <= j < n && spec_is_orphan_at(t, j) && t[j].job is Some && o0[k] == t[
        j].job.unwrap());
    }
    if spec_is_orphan_at(t, n - 1) {
        let x = t[n - 1].job.unwrap();
        assert(t[n - 1].job is Some && x is Single);
        assert(o1 == o0.push(x));
        assert(s1 == s0);
        assert(spec_orphan_witness(t, n, x)) by {
            assert(0 <= n - 1 < n && spec_is_orphan_at(t, n - 1) && t[n - 1].job is Some && x == t[
            n - 1].job.unwrap());
        }
        assert(forall|k: int| 0 <= k < o1.len() ==> o1[k] == (if k < o0.len() {
            o0[k]
        } else {
            x
        }));
        if activities_singles_once(t) {
            assert forall|k: int| 0 <= k < o0.len() implies (#[trigger] o0[k]).spec_id()
                != x.spec_id() by {
                let j = choose|j: int|
                    0 <= j < n - 1 && (#[trigger] spec_is_orphan_at(t, j)) && t[j].job is Some
                        && o0[k] == t[j].job.unwrap();
                assert(t[n - 1].job is Some && t[n - 1].job.unwrap() is Single);
                assert(j != n - 1);
            }
            assert(jobs_distinct(o1)) by {
                assert(forall|i: int| 0 <= i < o0.len() ==> o1[i] == o0[i]);
                assert(o1[o0.len() as int] == x);
            }
        }
    } else {
        assert(s1 == s0.push(t[n - 1]));
        assert(o1 == o0);
        assert(spec_surviving_witness(t, n, t[n - 1])) by {
            assert(0 <= n - 1 < n && !spec_is_orphan_at(t, n - 1));
        }
        assert(forall|k: int| 0 <= k < s1.len() ==> s1[k] == (if k < s0.len() {
            s0[k]
        } else {
            t[n - 1]
        }));
        if activities_singles_once(t) {
            assert forall|a: int, b: int|
                0 <= a < s1.len() && 0 <= b < s1.len() && a != b && (#[trigger] s1[a].job) is Some
                    && s1[a].job.unwrap() is Single && (#[trigger] s1[b].job) is Some implies s1[
                b].job.unwrap().spec_id() != s1[a].job.unwrap().spec_id() by {
                if a < s0.len() && b < s0.len() {
                    assert(s0[a] == s1[a] && s0[b] == s1[b]);
                    assert(activities_singles_once(s0));
                } else {
                    // one of the two is the freshly kept activity; trace
                    // the other into the original tour
                    let small = if a < s0.len() {
                        a
                    } else {
                        b
                    };
                    let js = choose|j: int|
                        0 <= j < n - 1 && !(#[trigger] spec_is_orphan_at(t, j)) && s0[small] == t[
                        j];
                    assert(s1[small] == s0[small]);
                    assert(s1[small] == t[js]);
                    assert(s1[if a < s0.len() {
                        b
                    } else {
                        a
                    }] == t[n - 1]);
                    assert(js != n - 1);
                }
            }
        }
    }
}

/// An orphan job identity is served by the tour and by none of its
/// survivors, provided the tour serves each single job once.
proof fn lemma_orphan_ids_not_surviving(t: Seq<Activity>, n: int)
    requires
        0 <= n <= t.len(),
        activities_singles_once(t),
    ensures
        forall|id: u64|
            #[trigger] jobs_contain_id(spec_orphan_jobs(t, n), id) ==> activities_contain_job_id(
                t,
                id,
            ) && !activities_contain_job_id(spec_surviving(t, n), id),
{
    lemma_orphan_route(t, n);
    let o = spec_orphan_jobs(t, n);
    let s = spec_surviving(t, n);
    assert forall|id: u64| #[trigger] jobs_contain_id(o, id) implies activities_contain_job_id(
        t,
        id,
    ) && !activities_contain_job_id(s, id) by {
        let k = choose|k: int| 0 <= k < o.len() && (#[trigger] o[k].spec_id()) == id;
        assert(spec_orphan_witness(t, n, o[k]));
        let j = choose|j: int|
            0 <= j < n && (#[trigger] spec_is_orphan_at(t, j)) && t[j].job is Some && o[k] == t[
            j].job.unwrap();
        assert(t[j].job.unwrap().spec_id() == id);
        assert(activities_contain_job_id(t, id));
        assert(t[j].job.unwrap() is Single);
        if activities_contain_job_id(s, id) {
            let k2 = choose|k2: int|
                0 <= k2 < s.len() && (#[trigger] s[k2].job) is Some && s[k2].job.unwrap().spec_id()
                    == id;
            assert(spec_surviving_witness(t, n, s[k2]));
            let j2 = choose|j2: int|
                0 <= j2 < n && !(#[trigger] spec_is_orphan_at(t, j2)) && s[k2] == t[j2];
            assert(j2 != j);
            assert(false);
        }
    }
}

/// The orphan jobs collected over disjoint routes have pairwise distinct
/// identities, each served by one of the walked routes.
proof fn lemma_all_orphans_facts(routes: Seq<RouteModel>, n: int)
    requires
        0 <= n <= routes.len(),
        forall|r: int| 0 <= r < routes.len() ==> (#[trigger] routes[r]).singles_assigned_once(),
        routes_pairwise_disjoint(routes),
    ensures
        jobs_distinct(spec_all_orphans(routes, n)),
        forall|id: u64|
            #[trigger] jobs_contain_id(spec_all_orphans(routes, n), id) ==> exists|r: int|
                0 <= r < n && #[trigger] jobs_contain_id(
                    spec_orphan_jobs(routes[r].activities, routes[r].activities.len() as int),
                    id,
                ),
    decreases n,
{
    if n == 0 {
        return ;
    }
    lemma_all_orphans_facts(routes, n - 1);
    let all0 = spec_all_orphans(routes, n - 1);
    let all1 = spec_all_orphans(routes, n);
    let t = routes[n - 1].activities;
    let o = spec_orphan_jobs(t, t.len() as int);
    lemma_orphan_route(t, t.len() as int);
    lemma_orphan_ids_not_surviving(t, t.len() as int);
    lemma_jobs_contain_id_concat(all0, o);
    assert forall|id: u64| !(#[trigger] jobs_contain_id(all0, id) && jobs_contain_id(o, id)) by {
        if jobs_contain_id(all0, id) && jobs_contain_id(o, id) {
            let r = choose|r: int|
                0 <= r < n - 1 && #[trigger] jobs_contain_id(
                    spec_orphan_jobs(routes[r].activities, routes[r].activities.len() as int),
                    id,
                );
            lemma_orphan_ids_not_surviving(routes[r].activities, routes[r].activities.len() as int);
            assert(routes[r].has_job_id(id));
            assert(routes[n - 1].has_job_id(id));
            assert(false);
        }
    }
    lemma_jobs_distinct_concat(all0, o);
    assert forall|id: u64| #[trigger] jobs_contain_id(all1, id) implies exists|r: int|
        0 <= r < n && #[trigger] jobs_contain_id(
            spec_orphan_jobs(routes[r].activities, routes[r].activities.len() as int),
            id,
        ) by {
        if jobs_contain_id(all0, id) {
            let r = choose|r: int|
                0 <= r < n - 1 && #[trigger] jobs_contain_id(
                    spec_orphan_jobs(routes[r].activities, routes[r].activities.len() as int),
                    id,
                );
            assert(0 <= r < n && jobs_contain_id(
                spec_orphan_jobs(routes[r].activities, routes[r].activities.len() as int),
                id,
            ));
        } else {
            assert(jobs_contain_id(o, id));
            assert(0 <= n - 1 < n && jobs_contain_id(
                spec_orphan_jobs(
                    routes[n - 1].activities,
                    routes[n - 1].activities.len() as int,
                ),
                id,
            ));
        }
    }
}

/// Orphan-break removal preserves the partition invariant: the removed
/// jobs leave the routes exactly as they join `required`, and nothing
/// else moves.
pub proof fn lemma_remove_orphans_preserves_partition(m: SolutionModel)
    requires
        m.partition_wf(),
    ensures
        spec_remove_orphans(m).partition_wf(),
{
    let m1 = spec_remove_orphans(m);
    let nr = m.routes.len() as int;
    let all = spec_all_orphans(m.routes, nr);
    lemma_all_orphans_facts(m.routes, nr);
    assert(forall|r: int| 0 <= r < nr ==> #[trigger] m1.routes[r] == spec_repair_route(m.routes[r]));
    // survivors serve only identities the original route served
    assert forall|r: int, id: u64|
        0 <= r < nr && #[trigger] m1.routes[r].has_job_id(id) implies m.routes[r].has_job_id(
        id,
    ) by {
        let t = m.routes[r].activities;
        lemma_orphan_route(t, t.len() as int);
        let s = spec_surviving(t, t.len() as int);
        let k = choose|k: int|
            0 <= k < s.len() && (#[trigger] s[k].job) is Some && s[k].job.unwrap().spec_id() == id;
        assert(spec_surviving_witness(t, t.len() as int, s[k]));
        let j = choose|j: int|
            0 <= j < t.len() && !(#[trigger] spec_is_orphan_at(t, j)) && s[k] == t[j];
        assert(activities_contain_job_id(t, id));
    }
    // every collected identity is assigned in the old solution and gone
    // from every repaired route
    assert forall|id: u64| #[trigger] jobs_contain_id(all, id) implies m.assigned_ids().contains(
        id,
    ) && (forall|r: int| 0 <= r < nr ==> !(#[trigger] m1.routes[r]).has_job_id(id)) by {
        let r0 = choose|r: int|
            0 <= r < nr && #[trigger] jobs_contain_id(
                spec_orphan_jobs(m.routes[r].activities, m.routes[r].activities.len() as int),
                id,
            );
        lemma_orphan_ids_not_surviving(
            m.routes[r0].activities,
            m.routes[r0].activities.len() as int,
        );
        assert(m.routes[r0].has_job_id(id));
        assert(m.assigned_ids().contains(id));
        assert forall|r: int| 0 <= r < nr implies !(#[trigger] m1.routes[r]).has_job_id(id) by {
            if m1.routes[r].has_job_id(id) {
                assert(m.routes[r].has_job_id(id));
                if r != r0 {
                    assert(false);
                } else {
                    assert(!activities_contain_job_id(
                        spec_surviving(
                            m.routes[r0].activities,
                            m.routes[r0].activities.len() as int,
                        ),
                        id,
                    ));
                    assert(false);
                }
            }
        }
    }
    // the extended required list keeps distinct identities
    lemma_jobs_contain_id_concat(m.required, all);
    assert forall|id: u64| !(#[trigger] jobs_contain_id(m.required, id) && jobs_contain_id(
        all,
        id,
    )) by {
        if jobs_contain_id(all, id) {
            assert(m.assigned_ids().contains(id));
        }
    }
    lemma_jobs_distinct_concat(m.required, all);
    // repaired routes still serve each single job once and stay disjoint
    assert forall|r: int| 0 <= r < nr implies (#[trigger] m1.routes[r]).singles_assigned_once() by {
        lemma_orphan_route(m.routes[r].activities, m.routes[r].activities.len() as int);
    }
    assert(m1.partition_wf()) by {
        assert forall|id: u64| #[trigger] m1.assigned_ids().contains(id) implies !(jobs_contain_id(
            m1.required,
            id,
        ) || jobs_contain_id(m1.ignored, id) || jobs_contain_id(
            unassigned_jobs(m1.unassigned),
            id,
        )) by {
            let r = choose|r: int| 0 <= r < m1.routes.len() && #[trigger] m1.routes[r].has_job_id(id);
            assert(m.routes[r].has_job_id(id));
            assert(m.assigned_ids().contains(id));
            assert(!jobs_contain_id(all, id));
        }
    }
}

/// Some non-break position of the first `n` unassigned entries holds
/// this pair.
pub open spec fn spec_kept_witness(s: Seq<(Job, i32)>, n: int, p: (Job, i32)) -> bool {
    exists|j: int| 0 <= j < n && !(#[trigger] spec_pair_is_break(s[j])) && p == s[j]
}

/// Some break position of the first `n` unassigned entries records this
/// job.
pub open spec fn spec_demoted_witness(s: Seq<(Job, i32)>, n: int, x: Job) -> bool {
    exists|j: int| 0 <= j < n && (#[trigger] spec_pair_is_break(s[j])) && x == s[j].0
}

/// Where each result of one demotion walk comes from, and that on entries
/// with pairwise distinct identities the kept and demoted parts stay
/// distinct and share no identity.
proof fn lemma_demote_split(s: Seq<(Job, i32)>, n: int)
    requires
        0 <= n <= s.len(),
    ensures
        forall|k: int|
            0 <= k < spec_kept_unassigned(s, n).len() ==> spec_kept_witness(
                s,
                n,
                #[trigger] spec_kept_unassigned(s, n)[k],
            ),
        forall|k: int|
            0 <= k < spec_demoted_breaks(s, n).len() ==> spec_demoted_witness(
                s,
                n,
                #[trigger] spec_demoted_breaks(s, n)[k],
            ),
        jobs_distinct(unassigned_jobs(s)) ==> jobs_distinct(
            unassigned_jobs(spec_kept_unassigned(s, n)),
        ),
        jobs_distinct(unassigned_jobs(s)) ==> jobs_distinct(spec_demoted_breaks(s, n)),
        jobs_distinct(unassigned_jobs(s)) ==> forall|id: u64|
            !(#[trigger] jobs_contain_id(unassigned_jobs(spec_kept_unassigned(s, n)), id)
                && jobs_contain_id(spec_demoted_breaks(s, n), id)),
        forall|j: int|
            0 <= j < n && (#[trigger] spec_pair_is_break(s[j])) ==> spec_demoted_breaks(
                s,
                n,
            ).contains(s[j].0),
        forall|j: int|
            0 <= j < n && !(#[trigger] spec_pair_is_break(s[j])) ==> spec_kept_unassigned(
                s,
                n,
            ).contains(s[j]),
    decreases n,
{
    if n == 0 {
        return ;
    }
    lemma_demote_split(s, n - 1);
    let k0 = spec_kept_unassigned(s, n - 1);
    let k1 = spec_kept_unassigned(s, n);
    let d0 = spec_demoted_breaks(s, n - 1);
    let d1 = spec_demoted_breaks(s, n);
    assert forall|k: int| 0 <= k < k0.len() implies spec_kept_witness(s, n, k0[k]) by {
        let j = choose|j: int| 0 <= j < n - 1 && !(#[trigger] spec_pair_is_break(s[j])) && k0[k]
            == s[j];
        assert(0 <= j < n && !spec_pair_is_break(s[j]) && k0[k] == s[j]);
    }
    assert forall|k: int| 0 <= k < d0.len() implies spec_demoted_witness(s, n, d0[k]) by {
        let j = choose|j: int| 0 <= j < n - 1 && (#[trigger] spec_pair_is_break(s[j])) && d0[k]
            == s[j].0;
        assert(0 <= j < n && spec_pair_is_break(s[j]) && d0[k] == s[j].0);
    }
    // membership of each walked entry carries over to the longer walk
    assert forall|j: int|
        0 <= j < n && (#[trigger] spec_pair_is_break(s[j])) implies d1.contains(s[j].0) by {
        if j < n - 1 {
            let i = choose|i: int| 0 <= i < d0.len() && d0[i] == s[j].0;
            assert(d1[i] == s[j].0);
        } else {
            assert(d1[d0.len() as int] == s[j].0);
        }
    }
    assert forall|j: int|
        0 <= j < n && !(#[trigger] spec_pair_is_break(s[j])) implies k1.contains(s[j]) by {
        if j < n - 1 {
            let i = choose|i: int| 0 <= i < k0.len() && k0[i] == s[j];
            assert(k1[i] == s[j]);
        } else {
            assert(k1[k0.len() as int] == s[j]);
        }
    }
    let uk0 = unassigned_jobs(k0);
    let uk1 = unassigned_jobs(k1);
    if jobs_distinct(unassigned_jobs(s)) {
        // the identity at the walk front is new to both parts
        assert forall|k: int| 0 <= k < uk0.len() implies (#[trigger] uk0[k]).spec_id() != s[n
            - 1].0.spec_id() by {
            assert(uk0[k] == k0[k].0);
            let j = choose|j: int| 0 <= j < n - 1 && !(#[trigger] spec_pair_is_break(s[j])) && k0[
            k] == s[j];
            assert(unassigned_jobs(s)[j] == s[j].0);
            assert(unassigned_jobs(s)[n - 1] == s[n - 1].0);
        }
        assert forall|k: int| 0 <= k < d0.len() implies (#[trigger] d0[k]).spec_id() != s[n
            - 1].0.spec_id() by {
            let j = choose|j: int| 0 <= j < n - 1 && (#[trigger] spec_pair_is_break(s[j])) && d0[
            k] == s[j].0;
            assert(unassigned_jobs(s)[j] == s[j].0);
            assert(unassigned_jobs(s)[n - 1] == s[n - 1].0);
        }
        if spec_pair_is_break(s[n - 1]) {
            assert(d1 == d0.push(s[n - 1].0));
            assert(k1 == k0);
            assert(jobs_distinct(d1)) by {
                assert(forall|i: int| 0 <= i < d0.len() ==> d1[i] == d0[i]);
                assert(d1[d0.len() as int] == s[n - 1].0);
            }
            assert(spec_demoted_witness(s, n, s[n - 1].0)) by {
                assert(0 <= n - 1 < n && spec_pair_is_break(s[n - 1]));
            }
            assert forall|id: u64| !(#[trigger] jobs_contain_id(uk1, id) && jobs_contain_id(
                d1,
                id,
            )) by {
                if jobs_contain_id(uk1, id) && jobs_contain_id(d1, id) {
                    let a = choose|a: int| 0 <= a < d1.len() && (#[trigger] d1[a].spec_id()) == id;
                    assert(a < d0.len() || d1[a] == s[n - 1].0);
                    assert(jobs_contain_id(uk0, id));
                    if a < d0.len() {
                        assert(jobs_contain_id(d0, id));
                        assert(false);
                    } else {
                        let b = choose|b: int|
                            0 <= b < uk0.len() && (#[trigger] uk0[b].spec_id()) == id;
                        assert(uk0[b].spec_id() != s[n - 1].0.spec_id());
                        assert(false);
                    }
                }
            }
        } else {
            assert(k1 == k0.push(s[n - 1]));
            assert(d1 == d0);
            assert(uk1 =~= uk0.push(s[n - 1].0));
            assert(jobs_distinct(uk1)) by {
                assert(forall|i: int| 0 <= i < uk0.len() ==> uk1[i] == uk0[i]);
                assert(uk1[uk0.len() as int] == s[n - 1].0);
            }
            assert(spec_kept_witness(s, n, s[n - 1])) by {
                assert(0 <= n - 1 < n && !spec_pair_is_break(s[n - 1]));
            }
            assert forall|id: u64| !(#[trigger] jobs_contain_id(uk1, id) && jobs_contain_id(
                d1,
                id,
            )) by {
                if jobs_contain_id(uk1, id) && jobs_contain_id(d1, id) {
                    let a = choose|a: int| 0 <= a < uk1.len() && (#[trigger] uk1[a].spec_id()) == id;
                    assert(a < uk0.len() || uk1[a] == s[n - 1].0);
                    if a < uk0.len() {
                        assert(jobs_contain_id(uk0, id));
                        assert(false);
                    } else {
                        let b = choose|b: int|
                            0 <= b < d0.len() && (#[trigger] d0[b].spec_id()) == id;
                        assert(d0[b].spec_id() != s[n - 1].0.spec_id());
                        assert(false);
                    }
                }
            }
        }
    } else {
        if spec_pair_is_break(s[n - 1]) {
            assert(spec_demoted_witness(s, n, s[n - 1].0)) by {
                assert(0 <= n - 1 < n && spec_pair_is_break(s[n - 1]));
            }
            assert(forall|k: int| 0 <= k < d1.len() ==> d1[k] == (if k < d0.len() {
                d0[k]
            } else {
                s[n - 1].0
            }));
        } else {
            assert(spec_kept_witness(s, n, s[n - 1])) by {
                assert(0 <= n - 1 < n && !spec_pair_is_break(s[n - 1]));
            }
            assert(forall|k: int| 0 <= k < k1.len() ==> k1[k] == (if k < k0.len() {
                k0[k]
            } else {
                s[n - 1]
            }));
        }
    }
}

/// Demotion removes exactly the breaks: afterwards no unassigned entry
/// records a break job, every break job that was unassigned is ignored,
/// every other unassigned entry survives unchanged, and the required
/// jobs and routes are untouched.
pub proof fn lemma_demotion_correct(m: SolutionModel)
    ensures
        forall|k: int|
            0 <= k < spec_demote(m).unassigned.len() ==> !spec_pair_is_break(
                #[trigger] spec_demote(m).unassigned[k],
            ),
        forall|j: int|
            0 <= j < m.unassigned.len() && (#[trigger] spec_pair_is_break(m.unassigned[j]))
                ==> spec_demote(m).ignored.contains(m.unassigned[j].0),
        forall|j: int|
            0 <= j < m.unassigned.len() && !(#[trigger] spec_pair_is_break(m.unassigned[j]))
                ==> spec_demote(m).unassigned.contains(m.unassigned[j]),
        spec_demote(m).required == m.required,
        spec_demote(m).routes == m.routes,
{
    let nu = m.unassigned.len() as int;
    lemma_demote_split(m.unassigned, nu);
    let kept = spec_kept_unassigned(m.unassigned, nu);
    let dem = spec_demoted_breaks(m.unassigned, nu);
    assert forall|k: int| 0 <= k < kept.len() implies !spec_pair_is_break(
        #[trigger] kept[k],
    ) by {
        assert(spec_kept_witness(m.unassigned, nu, kept[k]));
        let j = choose|j: int|
            0 <= j < nu && !(#[trigger] spec_pair_is_break(m.unassigned[j])) && kept[k]
                == m.unassigned[j];
    }
    assert forall|j: int|
        0 <= j < nu && (#[trigger] spec_pair_is_break(m.unassigned[j])) implies spec_demote(
        m,
    ).ignored.contains(m.unassigned[j].0) by {
        let i = choose|i: int| 0 <= i < dem.len() && dem[i] == m.unassigned[j].0;
        assert((m.ignored + dem)[m.ignored.len() + i] == m.unassigned[j].0);
    }
}

/// Unassigned-break demotion preserves the partition invariant: the
/// demoted identities move from `unassigned` to `ignored` and appear
/// nowhere else.
pub proof fn lemma_demote_preserves_partition(m: SolutionModel)
    requires
        m.partition_wf(),
    ensures
        spec_demote(m).partition_wf(),
{
    let m1 = spec_demote(m);
    let nu = m.unassigned.len() as int;
    lemma_demote_split(m.unassigned, nu);
    let kept = spec_kept_unassigned(m.unassigned, nu);
    let dem = spec_demoted_breaks(m.unassigned, nu);
    // both parts carry identities of the old unassigned entries
    assert forall|id: u64| #[trigger] jobs_contain_id(unassigned_jobs(kept), id) implies
        jobs_contain_id(unassigned_jobs(m.unassigned), id) by {
        let k = choose|k: int|
            0 <= k < unassigned_jobs(kept).len() && (#[trigger] unassigned_jobs(kept)[k].spec_id())
                == id;
        assert(unassigned_jobs(kept)[k] == kept[k].0);
        assert(spec_kept_witness(m.unassigned, nu, kept[k]));
        let j = choose|j: int|
            0 <= j < nu && !(#[trigger] spec_pair_is_break(m.unassigned[j])) && kept[k]
                == m.unassigned[j];
        assert(unassigned_jobs(m.unassigned)[j] == m.unassigned[j].0);
    }
    assert forall|id: u64| #[trigger] jobs_contain_id(dem, id) implies jobs_contain_id(
        unassigned_jobs(m.unassigned),
        id,
    ) by {
        let k = choose|k: int| 0 <= k < dem.len() && (#[trigger] dem[k].spec_id()) == id;
        assert(spec_demoted_witness(m.unassigned, nu, dem[k]));
        let j = choose|j: int|
            0 <= j < nu && (#[trigger] spec_pair_is_break(m.unassigned[j])) && dem[k]
                == m.unassigned[j].0;
        assert(unassigned_jobs(m.unassigned)[j] == m.unassigned[j].0);
    }
    lemma_jobs_contain_id_concat(m.ignored, dem);
    lemma_jobs_distinct_concat(m.ignored, dem);
    assert(m1.partition_wf()) by {
        assert forall|id: u64| #[trigger] m1.assigned_ids().contains(id) implies !(jobs_contain_id(
            m1.required,
            id,
        ) || jobs_contain_id(m1.ignored, id) || jobs_contain_id(
            unassigned_jobs(m1.unassigned),
            id,
        )) by {
            let r = choose|r: int| 0 <= r < m1.routes.len() && #[trigger] m1.routes[r].has_job_id(id);
            assert(m.assigned_ids().contains(id));
        }
    }
}

/// The conditional pass preserves the partition invariant: it only moves
/// jobs between `required` and `ignored`.
pub proof fn lemma_conditional_preserves_partition(m: SolutionModel)
    requires
        m.partition_wf(),
    ensures
        spec_conditional_accept(m).partition_wf(),
{
    let m1 = spec_conditional_accept(m);
    let pool = m.required + m.ignored;
    lemma_jobs_contain_id_concat(m.required, m.ignored);
    lemma_jobs_distinct_concat(m.required, m.ignored);
    crate::constraints::lemma_classify_partition::<BreakJobPredicate>(pool, m.routes);
    assert(jobs_distinct(pool));
    // an identity of either new list is an identity of the old pool
    assert forall|id: u64|
        #[trigger] jobs_contain_id(m1.required, id) || #[trigger] jobs_contain_id(
            m1.ignored,
            id,
        ) implies jobs_contain_id(m.required, id) || jobs_contain_id(m.ignored, id) by {
        assert(jobs_contain_id(pool, id));
    }
    assert(m1.partition_wf()) by {
        assert forall|id: u64| #[trigger] m1.assigned_ids().contains(id) implies !(jobs_contain_id(
            m1.required,
            id,
        ) || jobs_contain_id(m1.ignored, id) || jobs_contain_id(
            unassigned_jobs(m1.unassigned),
            id,
        )) by {
            let r = choose|r: int| 0 <= r < m1.routes.len() && #[trigger] m1.routes[r].has_job_id(id);
            assert(m.assigned_ids().contains(id));
            if jobs_contain_id(m1.required, id) || jobs_contain_id(m1.ignored, id) {
                assert(jobs_contain_id(pool, id));
                assert(false);
            }
        }
    }
}

/// The partition invariant is an invariant of the break module: every
/// solution it accepts keeps each job identity in at most one of
/// `required`, `ignored`, assigned-in-some-route and `unassigned`, each
/// at most once.
pub proof fn lemma_accept_preserves_partition(demote: bool, m: SolutionModel)
    requires
        m.partition_wf(),
    ensures
        spec_break_accept(demote, m).partition_wf(),
{
    let c = spec_conditional_accept(m);
    lemma_conditional_preserves_partition(m);
    if c.required.len() == 0 {
        lemma_remove_orphans_preserves_partition(c);
        if demote {
            lemma_demote_preserves_partition(spec_remove_orphans(c));
        }
    }
}

} // verus!