use black_hole_vis::trace::{TraceAction, TraceOutcome, Tracer};

/// Runs a trace to its end against `covers(step, object)`; returns the
/// outcome, the number of steps performed and the probes made, in order.
fn run(
    max_steps: u32,
    objects: usize,
    covers: &dyn Fn(u32, usize) -> bool,
) -> (TraceOutcome, u32, Vec<(u32, usize)>) {
    let mut tracer = Tracer::new(max_steps, objects);
    let mut steps = 0;
    let mut probes = Vec::new();
    loop {
        match tracer.action() {
            TraceAction::Step => {
                steps += 1;
                tracer.stepped();
            }
            TraceAction::Probe(object) => {
                probes.push((steps, object));
                tracer.probed(covers(steps, object));
            }
            TraceAction::Finish(outcome) => return (outcome, steps, probes),
        }
        assert!(probes.len() <= 10_000, "the trace must end");
    }
}

#[test]
fn photon_that_meets_nothing_is_exhausted_after_max_steps() {
    let (outcome, steps, probes) = run(350, 3, &|_, _| false);
    assert_eq!(outcome, TraceOutcome::Exhausted { steps: 350 });
    assert_eq!(steps, 350);
    assert_eq!(probes.len(), 350 * 3);
}

#[test]
fn photon_in_an_empty_scene_is_exhausted_after_max_steps() {
    let (outcome, steps, probes) = run(12, 0, &|_, _| true);
    assert_eq!(outcome, TraceOutcome::Exhausted { steps: 12 });
    assert_eq!(steps, 12);
    assert!(probes.is_empty());
}

#[test]
fn photon_without_budget_is_exhausted_at_once() {
    let tracer = Tracer::new(0, 4);
    assert_eq!(tracer.action(), TraceAction::Finish(TraceOutcome::Exhausted { steps: 0 }));
    let (outcome, steps, probes) = run(0, 4, &|_, _| true);
    assert_eq!(outcome, TraceOutcome::Exhausted { steps: 0 });
    assert_eq!(steps, 0);
    assert!(probes.is_empty());
}

#[test]
fn hit_is_detected_after_the_first_step_not_before() {
    let tracer = Tracer::new(350, 2);
    assert_eq!(tracer.action(), TraceAction::Step);
    let (outcome, steps, probes) = run(350, 2, &|_, object| object == 1);
    assert_eq!(outcome, TraceOutcome::Hit { steps: 1, object: 1 });
    assert_eq!(steps, 1);
    assert_eq!(probes, vec![(1, 0), (1, 1)]);
}

#[test]
fn first_object_in_insertion_order_wins() {
    let (outcome, _, probes) = run(10, 4, &|step, object| step == 3 && object >= 1);
    assert_eq!(outcome, TraceOutcome::Hit { steps: 3, object: 1 });
    assert_eq!(probes.last(), Some(&(3, 1)));
    assert_eq!(probes.len(), 4 + 4 + 2);
}

#[test]
fn earliest_step_wins() {
    let covers = |step: u32, object: usize| (step == 5 && object == 0) || (step == 4 && object == 2);
    let (outcome, steps, _) = run(10, 3, &covers);
    assert_eq!(outcome, TraceOutcome::Hit { steps: 4, object: 2 });
    assert_eq!(steps, 4);
}

#[test]
fn hit_on_the_last_step_still_counts() {
    let (outcome, steps, _) = run(6, 2, &|step, object| step == 6 && object == 1);
    assert_eq!(outcome, TraceOutcome::Hit { steps: 6, object: 1 });
    assert_eq!(steps, 6);
}

#[test]
fn hit_after_the_budget_is_never_seen() {
    let (outcome, steps, _) = run(6, 2, &|step, _| step >= 7);
    assert_eq!(outcome, TraceOutcome::Exhausted { steps: 6 });
    assert_eq!(steps, 6);
}

#[test]
fn every_probe_follows_a_step() {
    let (_, _, probes) = run(3, 2, &|_, _| false);
    assert_eq!(probes, vec![(1, 0), (1, 1), (2, 0), (2, 1), (3, 0), (3, 1)]);
}

#[test]
fn reports_that_do_not_answer_the_action_change_nothing() {
    let mut tracer = Tracer::new(2, 1);
    tracer.probed(true);
    assert_eq!(tracer.action(), TraceAction::Step);
    tracer.stepped();
    assert_eq!(tracer.action(), TraceAction::Probe(0));
    tracer.stepped();
    assert_eq!(tracer.action(), TraceAction::Probe(0));
    tracer.probed(true);
    let done = TraceAction::Finish(TraceOutcome::Hit { steps: 1, object: 0 });
    assert_eq!(tracer.action(), done);
    tracer.stepped();
    tracer.probed(false);
    assert_eq!(tracer.action(), done);
}

#[test]
fn trace_with_the_largest_budget_starts_with_a_step() {
    let mut tracer = Tracer::new(u32::MAX, usize::MAX);
    assert_eq!(tracer.action(), TraceAction::Step);
    tracer.stepped();
    assert_eq!(tracer.action(), TraceAction::Probe(0));
    tracer.probed(false);
    assert_eq!(tracer.action(), TraceAction::Probe(1));
}
