//! Tests of the break constraint module: hard and soft rules, break
//! eligibility, orphan-break removal and unassigned-break demotion.

use vrp_core::breaks::{
    as_break_job, demote_unassigned_breaks, get_shift_index, get_vehicle_id_from_break,
    is_break_job, is_correct_vehicle, is_required_job, is_time, remove_orphan_breaks,
    BreakHardActivityConstraint, BreakModule, BreakSoftActivityConstraint,
};
use vrp_core::constraints::{
    estimate_soft_all, evaluate_hard_all, ActivityConstraintViolation, ConstraintModule,
    HardActivityConstraint, SoftActivityConstraint,
};
use vrp_core::dimens::Dimensions;
use vrp_core::domain::{
    Activity, ActivityPlace, Actor, Job, Place, Registry, Route, Schedule, Single, TimeWindow,
    Tour, Vehicle,
};
use vrp_core::states::{ActivityContext, RouteContext, RouteState, SolutionContext};

fn break_single(id: u64, vehicle: &str, shift: usize, window: (i64, i64), location: Option<usize>) -> Single {
    let mut dimens = Dimensions::new();
    dimens.set_str("type", "break");
    dimens.set_str("vehicle_id", vehicle);
    dimens.set_int("shift_index", shift);
    Single {
        id,
        places: vec![Place { location, times: vec![TimeWindow { start: window.0, end: window.1 }] }],
        dimens,
    }
}

fn regular_single(id: u64, location: usize) -> Single {
    Single {
        id,
        places: vec![Place { location: Some(location), times: vec![TimeWindow { start: 0, end: 1000 }] }],
        dimens: Dimensions::new(),
    }
}

fn activity(location: usize, arrival: i64, job: Option<Job>) -> Activity {
    Activity {
        place: ActivityPlace { location },
        schedule: Schedule { arrival, departure: arrival },
        job,
    }
}

fn route_ctx(vehicle_id: &str, shift: usize, activities: Vec<Activity>) -> RouteContext {
    let mut dimens = Dimensions::new();
    dimens.set_id(vehicle_id);
    dimens.set_int("shift_index", shift);
    RouteContext {
        route: Route { actor: Actor { vehicle: Vehicle { dimens } }, tour: Tour { activities } },
        state: RouteState { values: Vec::new() },
    }
}

fn solution(
    required: Vec<Job>,
    ignored: Vec<Job>,
    unassigned: Vec<(Job, i32)>,
    routes: Vec<RouteContext>,
) -> SolutionContext {
    SolutionContext { required, ignored, unassigned, routes, registry: Registry { used: Vec::new() } }
}

fn job_ids(jobs: &[Job]) -> Vec<u64> {
    jobs.iter().map(|j| j.id()).collect()
}

#[test]
fn helpers_read_break_tags() {
    let b = break_single(1, "v1", 2, (100, 200), None);
    assert!(is_break_job(&b));
    assert!(!is_break_job(&regular_single(2, 3)));
    assert_eq!(get_vehicle_id_from_break(&b).unwrap(), "v1");
    assert_eq!(get_shift_index(&b.dimens), 2);
    let act = activity(4, 50, Some(Job::Single(b)));
    assert_eq!(as_break_job(&act).unwrap().id, 1);
    let real = activity(4, 50, Some(Job::Single(regular_single(2, 4))));
    assert!(as_break_job(&real).is_none());
    let depot = activity(0, 0, None);
    assert!(as_break_job(&depot).is_none());
}

#[test]
fn vehicle_and_time_checks() {
    let rc = route_ctx("v1", 0, vec![activity(0, 0, None), activity(3, 250, None)]);
    assert!(is_correct_vehicle(&rc, &String::from("v1"), 0));
    assert!(!is_correct_vehicle(&rc, &String::from("v2"), 0));
    assert!(!is_correct_vehicle(&rc, &String::from("v1"), 1));
    let b = break_single(1, "v1", 0, (100, 200), None);
    // the tour end arrival 250 lies past the window start 100
    assert!(is_time(&rc, &b));
    let early = route_ctx("v1", 0, vec![activity(0, 0, None), activity(3, 50, None)]);
    assert!(!is_time(&early, &b));
    let empty = route_ctx("v1", 0, vec![]);
    assert!(!is_time(&empty, &b));
}

#[test]
fn hard_rejects_break_after_departure() {
    let hard = BreakHardActivityConstraint { code: 5 };
    let rc = route_ctx("v1", 0, vec![activity(0, 0, None)]);
    let actx = ActivityContext {
        index: 1,
        prev: activity(0, 0, None),
        target: activity(3, 120, Some(Job::Single(break_single(1, "v1", 0, (100, 200), None)))),
        next: None,
    };
    assert_eq!(
        hard.evaluate_activity(&rc, &actx),
        Some(ActivityConstraintViolation { code: 5, stopped: false })
    );
}

#[test]
fn hard_rejects_foreign_vehicle_and_shift() {
    let hard = BreakHardActivityConstraint { code: 5 };
    let actx = || ActivityContext {
        index: 2,
        prev: activity(3, 80, Some(Job::Single(regular_single(9, 3)))),
        target: activity(3, 120, Some(Job::Single(break_single(1, "v1", 0, (100, 200), None)))),
        next: None,
    };
    let wrong_vehicle = route_ctx("v2", 0, vec![activity(0, 0, None)]);
    assert_eq!(
        hard.evaluate_activity(&wrong_vehicle, &actx()),
        Some(ActivityConstraintViolation { code: 5, stopped: false })
    );
    let wrong_shift = route_ctx("v1", 1, vec![activity(0, 0, None)]);
    assert_eq!(
        hard.evaluate_activity(&wrong_shift, &actx()),
        Some(ActivityConstraintViolation { code: 5, stopped: false })
    );
}

#[test]
fn hard_accepts_matching_route_and_non_breaks() {
    let hard = BreakHardActivityConstraint { code: 5 };
    let rc = route_ctx("v1", 0, vec![activity(0, 0, None)]);
    let matching = ActivityContext {
        index: 2,
        prev: activity(3, 80, Some(Job::Single(regular_single(9, 3)))),
        target: activity(3, 120, Some(Job::Single(break_single(1, "v1", 0, (100, 200), None)))),
        next: None,
    };
    assert_eq!(hard.evaluate_activity(&rc, &matching), None);
    // a non-break target passes even right after departure
    let non_break = ActivityContext {
        index: 1,
        prev: activity(0, 0, None),
        target: activity(3, 120, Some(Job::Single(regular_single(9, 3)))),
        next: None,
    };
    assert_eq!(hard.evaluate_activity(&rc, &non_break), None);
}

#[test]
fn soft_charges_extra_cost_for_breaks_only() {
    let rc = route_ctx("v1", 0, vec![activity(0, 0, None)]);
    let break_target = ActivityContext {
        index: 1,
        prev: activity(0, 0, None),
        target: activity(3, 120, Some(Job::Single(break_single(1, "v1", 0, (100, 200), None)))),
        next: None,
    };
    let real_target = ActivityContext {
        index: 1,
        prev: activity(0, 0, None),
        target: activity(3, 120, Some(Job::Single(regular_single(9, 3)))),
        next: None,
    };
    let biased = BreakSoftActivityConstraint { extra_break_cost: Some(7) };
    assert_eq!(biased.estimate_activity(&rc, &break_target), 7);
    assert_eq!(biased.estimate_activity(&rc, &real_target), 0);
    let neutral = BreakSoftActivityConstraint { extra_break_cost: None };
    assert_eq!(neutral.estimate_activity(&rc, &break_target), 0);
}

#[test]
fn module_exposes_constraints_and_no_keys() {
    let module = BreakModule::new(5, Some(7), true);
    assert!(module.state_keys().is_empty());
    let bundle = module.get_constraints();
    assert_eq!(bundle.hards.len(), 1);
    assert_eq!(bundle.softs.len(), 1);
    let rc = route_ctx("v1", 0, vec![activity(0, 0, None)]);
    let break_target = ActivityContext {
        index: 1,
        prev: activity(3, 80, Some(Job::Single(regular_single(9, 3)))),
        target: activity(3, 120, Some(Job::Single(break_single(1, "v1", 0, (100, 200), None)))),
        next: None,
    };
    // the aggregate evaluation agrees with the single rules
    assert_eq!(evaluate_hard_all(&bundle.hards, &rc, &break_target), None);
    assert_eq!(estimate_soft_all(&bundle.softs, &rc, &break_target), 7);
}

#[test]
fn eligibility_follows_window_start_against_end_arrival() {
    // vehicle v1 shift 0, break window [100, 200)
    let bk = || Job::Single(break_single(1, "v1", 0, (100, 200), None));
    // route ends at arrival 50: no window start lies before it
    let early = solution(vec![], vec![], vec![], vec![route_ctx("v1", 0, vec![activity(0, 0, None), activity(3, 50, None)])]);
    assert!(!is_required_job(&early, &bk()));
    // route ends at arrival 250: past the window end, but the rule only
    // compares the window start, so the break still presses
    let late = solution(vec![], vec![], vec![], vec![route_ctx("v1", 0, vec![activity(0, 0, None), activity(3, 250, None)])]);
    assert!(is_required_job(&late, &bk()));
    // a matching vehicle on another shift does not count
    let shifted = solution(vec![], vec![], vec![], vec![route_ctx("v1", 1, vec![activity(0, 0, None), activity(3, 250, None)])]);
    assert!(!is_required_job(&shifted, &bk()));
    // non-break singles and multi jobs are always required
    assert!(is_required_job(&early, &Job::Single(regular_single(2, 3))));
    let multi = Job::Multi(vrp_core::domain::Multi { id: 3, jobs: vec![], dimens: Dimensions::new() });
    assert!(is_required_job(&early, &multi));
}

#[test]
fn accept_solution_state_reclassifies_breaks() {
    let module = BreakModule::new(5, None, false);
    let bk = Job::Single(break_single(1, "v1", 0, (100, 200), None));
    let mut ctx = solution(
        vec![bk],
        vec![],
        vec![],
        vec![route_ctx("v1", 0, vec![activity(0, 0, None), activity(3, 50, None)])],
    );
    module.accept_solution_state(&mut ctx);
    // the break is not yet needed: it moved to ignored
    assert_eq!(job_ids(&ctx.required), Vec::<u64>::new());
    assert_eq!(job_ids(&ctx.ignored), vec![1]);
    // the route advanced past the window start: it moves back
    ctx.routes = vec![route_ctx("v1", 0, vec![activity(0, 0, None), activity(3, 250, None)])];
    module.accept_solution_state(&mut ctx);
    assert_eq!(job_ids(&ctx.required), vec![1]);
    assert_eq!(job_ids(&ctx.ignored), Vec::<u64>::new());
}

#[test]
fn consistent_break_survives_repair() {
    // a break at site 3 directly after a real activity at site 3, with no
    // location of its own: not orphaned
    let mut ctx = solution(
        vec![],
        vec![],
        vec![],
        vec![route_ctx(
            "v1",
            0,
            vec![
                activity(0, 0, None),
                activity(3, 80, Some(Job::Single(regular_single(9, 3)))),
                activity(3, 120, Some(Job::Single(break_single(1, "v1", 0, (100, 200), None)))),
            ],
        )],
    );
    remove_orphan_breaks(&mut ctx);
    assert_eq!(ctx.routes[0].route.tour.activities.len(), 3);
    assert!(ctx.required.is_empty());
}

#[test]
fn orphan_break_is_removed_and_required_again() {
    // the break sits at site 5 after a real activity at site 3 and has no
    // fixed location: orphaned
    let mut ctx = solution(
        vec![],
        vec![],
        vec![],
        vec![route_ctx(
            "v1",
            0,
            vec![
                activity(0, 0, None),
                activity(3, 80, Some(Job::Single(regular_single(9, 3)))),
                activity(5, 120, Some(Job::Single(break_single(1, "v1", 0, (100, 200), None)))),
            ],
        )],
    );
    remove_orphan_breaks(&mut ctx);
    assert_eq!(ctx.routes[0].route.tour.activities.len(), 2);
    assert_eq!(job_ids(&ctx.required), vec![1]);
    // a break with a fixed location of its own is never orphaned
    let mut fixed = solution(
        vec![],
        vec![],
        vec![],
        vec![route_ctx(
            "v1",
            0,
            vec![
                activity(0, 0, None),
                activity(3, 80, Some(Job::Single(regular_single(9, 3)))),
                activity(5, 120, Some(Job::Single(break_single(1, "v1", 0, (100, 200), Some(5))))),
            ],
        )],
    );
    remove_orphan_breaks(&mut fixed);
    assert_eq!(fixed.routes[0].route.tour.activities.len(), 3);
    assert!(fixed.required.is_empty());
}

#[test]
fn orphan_repair_twice_changes_nothing_more() {
    let mut ctx = solution(
        vec![],
        vec![],
        vec![],
        vec![route_ctx(
            "v1",
            0,
            vec![
                activity(0, 0, None),
                activity(3, 80, Some(Job::Single(regular_single(9, 3)))),
                activity(5, 120, Some(Job::Single(break_single(1, "v1", 0, (100, 200), None)))),
                activity(4, 140, Some(Job::Single(regular_single(8, 4)))),
            ],
        )],
    );
    remove_orphan_breaks(&mut ctx);
    let required_once = job_ids(&ctx.required);
    let tour_once: Vec<usize> =
        ctx.routes[0].route.tour.activities.iter().map(|a| a.place.location).collect();
    remove_orphan_breaks(&mut ctx);
    assert_eq!(job_ids(&ctx.required), required_once);
    let tour_twice: Vec<usize> =
        ctx.routes[0].route.tour.activities.iter().map(|a| a.place.location).collect();
    assert_eq!(tour_twice, tour_once);
}

#[test]
fn demotion_moves_unassigned_breaks_to_ignored() {
    let bk = Job::Single(break_single(1, "v1", 0, (100, 200), None));
    let real = Job::Single(regular_single(2, 3));
    let mut ctx = solution(vec![], vec![], vec![(bk, 7), (real, 9)], vec![]);
    demote_unassigned_breaks(&mut ctx);
    assert_eq!(job_ids(&ctx.ignored), vec![1]);
    assert_eq!(ctx.unassigned.len(), 1);
    assert_eq!(ctx.unassigned[0].0.id(), 2);
    assert_eq!(ctx.unassigned[0].1, 9);
}

#[test]
fn module_demotes_only_when_enabled() {
    let bk = || Job::Single(break_single(1, "v2", 0, (100, 200), None));
    let real = || Job::Single(regular_single(2, 3));
    let routes = || vec![route_ctx("v1", 0, vec![activity(0, 0, None), activity(3, 50, None)])];
    let enabled = BreakModule::new(5, None, true);
    let mut ctx = solution(vec![], vec![], vec![(bk(), 7), (real(), 9)], routes());
    enabled.accept_solution_state(&mut ctx);
    assert_eq!(job_ids(&ctx.ignored), vec![1]);
    assert_eq!(ctx.unassigned.len(), 1);
    assert_eq!(ctx.unassigned[0].0.id(), 2);
    let disabled = BreakModule::new(5, None, false);
    let mut ctx = solution(vec![], vec![], vec![(bk(), 7), (real(), 9)], routes());
    disabled.accept_solution_state(&mut ctx);
    assert!(ctx.ignored.is_empty());
    assert_eq!(ctx.unassigned.len(), 2);
}

#[test]
fn accept_route_state_leaves_route_untouched() {
    let module = BreakModule::new(5, None, false);
    let mut rc = route_ctx("v1", 0, vec![activity(0, 0, None), activity(3, 50, None)]);
    module.accept_route_state(&mut rc);
    assert_eq!(rc.route.tour.activities.len(), 2);
    assert!(rc.state.values.is_empty());
}

#[test]
fn every_job_lands_in_exactly_one_class() {
    // one assigned regular job, one orphaned break, one ineligible break
    // and one unassigned regular job
    let ineligible = Job::Single(break_single(2, "v9", 0, (100, 200), None));
    let unassigned_job = Job::Single(regular_single(3, 6));
    let module = BreakModule::new(5, None, true);
    let mut ctx = solution(
        vec![],
        vec![ineligible],
        vec![(unassigned_job, 7)],
        vec![route_ctx(
            "v1",
            0,
            vec![
                activity(0, 0, None),
                activity(3, 80, Some(Job::Single(regular_single(9, 3)))),
                activity(5, 250, Some(Job::Single(break_single(4, "v1", 0, (100, 200), None)))),
            ],
        )],
    );
    module.accept_solution_state(&mut ctx);
    let mut all_ids: Vec<u64> = Vec::new();
    all_ids.extend(job_ids(&ctx.required));
    all_ids.extend(job_ids(&ctx.ignored));
    all_ids.extend(ctx.unassigned.iter().map(|p| p.0.id()));
    for rc in &ctx.routes {
        for act in &rc.route.tour.activities {
            if let Some(job) = &act.job {
                all_ids.push(job.id());
            }
        }
    }
    all_ids.sort();
    let mut deduped = all_ids.clone();
    deduped.dedup();
    assert_eq!(all_ids, deduped);
    // the orphaned break was pulled back into required, the ineligible
    // break stays ignored, the unplaced regular job stays unassigned
    assert_eq!(job_ids(&ctx.required), vec![4]);
    assert_eq!(job_ids(&ctx.ignored), vec![2]);
    assert_eq!(ctx.unassigned.len(), 1);
    assert_eq!(ctx.unassigned[0].0.id(), 3);
    assert_eq!(ctx.routes[0].route.tour.activities.len(), 2);
}

#[test]
fn aggregate_hard_reports_first_violation() {
    let hards = vec![
        BreakHardActivityConstraint { code: 5 },
        BreakHardActivityConstraint { code: 6 },
    ];
    let rc = route_ctx("v2", 0, vec![activity(0, 0, None)]);
    let actx = ActivityContext {
        index: 2,
        prev: activity(3, 80, Some(Job::Single(regular_single(9, 3)))),
        target: activity(3, 120, Some(Job::Single(break_single(1, "v1", 0, (100, 200), None)))),
        next: None,
    };
    assert_eq!(
        evaluate_hard_all(&hards, &rc, &actx),
        Some(ActivityConstraintViolation { code: 5, stopped: false })
    );
}

#[test]
fn aggregate_soft_sums_all_costs() {
    let softs = vec![
        BreakSoftActivityConstraint { extra_break_cost: Some(7) },
        BreakSoftActivityConstraint { extra_break_cost: Some(5) },
        BreakSoftActivityConstraint { extra_break_cost: None },
    ];
    let rc = route_ctx("v1", 0, vec![activity(0, 0, None)]);
    let actx = ActivityContext {
        index: 1,
        prev: activity(0, 0, None),
        target: activity(3, 120, Some(Job::Single(break_single(1, "v1", 0, (100, 200), None)))),
        next: None,
    };
    assert_eq!(estimate_soft_all(&softs, &rc, &actx), 12);
}

#[test]
fn wrong_typed_type_tag_is_no_break() {
    let mut dimens = Dimensions::new();
    dimens.set_int("type", 1);
    let s = Single { id: 1, places: vec![], dimens };
    assert!(!is_break_job(&s));
}
