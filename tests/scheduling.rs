use critic::config::{FixtureConfig, InputRef, TestConfig};
use critic::runner::{judge, BuildError, NodeRole, Outcome, Runner, Step};
use critic::schedule::{CompletionError, NextInSchedule, ScheduleBuilder, START_NODE};

fn test_config(name: &str, inputs: Vec<InputRef<u64>>, group: Option<&str>) -> TestConfig<u32> {
    TestConfig {
        should_panic: false,
        subprocess: false,
        inputs,
        exclusion_group: group.map(|g| g.to_string()),
        runnable_fn: 0,
        module: "tests".to_string(),
        name: name.to_string(),
    }
}

fn fixture_config(name: &str, output: u64) -> FixtureConfig<u32> {
    FixtureConfig {
        inputs: vec![],
        output,
        runnable_fn: 1,
        module: "fixtures".to_string(),
        name: name.to_string(),
    }
}

const MY_FIXTURE: u64 = 7;

fn step(runner: &mut Runner<u32>) -> Step {
    loop {
        let s = runner.next();
        if s != Step::Start {
            return s;
        }
        assert_eq!(runner.completion_error(START_NODE), None);
        runner.complete(START_NODE);
    }
}

fn run_id(step: Step) -> (u128, NodeRole) {
    match step {
        Step::Run(id, role) => (id, role),
        other => panic!("expected a node to run, got {:?}", other),
    }
}

#[test]
fn shared_fixture_runs_first_then_both_tests_together() {
    let tests = vec![
        test_config("t1", vec![InputRef::shared(MY_FIXTURE)], None),
        test_config("t2", vec![InputRef::shared(MY_FIXTURE)], None),
    ];
    let mut runner = Runner::new(tests, vec![fixture_config("f", MY_FIXTURE)]).unwrap();
    let (f, role) = run_id(step(&mut runner));
    assert_eq!(role, NodeRole::Fixture(0));
    assert_eq!(step(&mut runner), Step::Waiting);
    runner.complete(f);
    let (a, ra) = run_id(step(&mut runner));
    let (b, rb) = run_id(step(&mut runner));
    assert_ne!(a, b);
    let mut roles = vec![ra, rb];
    roles.sort_by_key(|r| format!("{:?}", r));
    assert_eq!(roles, vec![NodeRole::Test(0), NodeRole::Test(1)]);
    runner.complete(a);
    runner.complete(b);
    assert_eq!(step(&mut runner), Step::Completed);
}

#[test]
fn lone_exclusive_test_runs_after_its_fixture() {
    let tests = vec![test_config("t", vec![InputRef::exclusive(MY_FIXTURE)], None)];
    let mut runner = Runner::new(tests, vec![fixture_config("f", MY_FIXTURE)]).unwrap();
    let (f, role) = run_id(step(&mut runner));
    assert_eq!(role, NodeRole::Fixture(0));
    runner.complete(f);
    let (t, role) = run_id(step(&mut runner));
    assert_eq!(role, NodeRole::Test(0));
    assert_eq!(t, runner.test_node(0));
    runner.complete(t);
    assert_eq!(step(&mut runner), Step::Completed);
}

#[test]
fn exclusive_test_excludes_other_borrowers() {
    let tests = vec![
        test_config("writer", vec![InputRef::exclusive(MY_FIXTURE)], None),
        test_config("reader", vec![InputRef::shared(MY_FIXTURE)], None),
    ];
    let mut runner = Runner::new(tests, vec![fixture_config("f", MY_FIXTURE)]).unwrap();
    let (f, _) = run_id(step(&mut runner));
    runner.complete(f);
    let (first, _) = run_id(step(&mut runner));
    assert_eq!(step(&mut runner), Step::Waiting);
    runner.complete(first);
    let (second, _) = run_id(step(&mut runner));
    assert_ne!(first, second);
    runner.complete(second);
    assert_eq!(step(&mut runner), Step::Completed);
}

#[test]
fn exclusion_group_runs_one_at_a_time() {
    let tests = vec![
        test_config("a", vec![InputRef::shared(1)], Some("db")),
        test_config("b", vec![InputRef::shared(2)], Some("db")),
    ];
    let fixtures = vec![fixture_config("one", 1), fixture_config("two", 2)];
    let mut runner = Runner::new(tests, fixtures).unwrap();
    let (f1, _) = run_id(step(&mut runner));
    let (f2, _) = run_id(step(&mut runner));
    runner.complete(f1);
    runner.complete(f2);
    let (first, _) = run_id(step(&mut runner));
    assert_eq!(step(&mut runner), Step::Waiting);
    runner.complete(first);
    let (second, _) = run_id(step(&mut runner));
    runner.complete(second);
    assert_eq!(step(&mut runner), Step::Completed);
}

#[test]
fn tests_without_inputs_or_groups_run_together() {
    let tests = vec![test_config("abc", vec![], None), test_config("abc2", vec![], None)];
    let mut runner = Runner::new(tests, vec![]).unwrap();
    let (a, _) = run_id(step(&mut runner));
    let (b, _) = run_id(step(&mut runner));
    runner.complete(a);
    runner.complete(b);
    assert_eq!(step(&mut runner), Step::Completed);
}

#[test]
fn missing_producer_fails_the_build() {
    let tests = vec![test_config("t", vec![InputRef::shared(42)], None)];
    let r = Runner::new(tests, vec![fixture_config("f", MY_FIXTURE)]);
    assert!(matches!(r, Err(BuildError::MissingProducer(42))));
}

#[test]
fn fixture_node_is_shared_by_all_consumers() {
    let tests = vec![
        test_config("t1", vec![InputRef::shared(MY_FIXTURE)], None),
        test_config("t2", vec![InputRef::shared(MY_FIXTURE)], None),
        test_config("t3", vec![InputRef::shared(MY_FIXTURE)], None),
    ];
    let mut runner = Runner::new(tests, vec![fixture_config("f", MY_FIXTURE)]).unwrap();
    let mut fixture_runs = 0;
    let mut test_runs = 0;
    loop {
        match step(&mut runner) {
            Step::Run(id, NodeRole::Fixture(_)) => {
                fixture_runs += 1;
                runner.complete(id);
            }
            Step::Run(id, NodeRole::Test(_)) => {
                test_runs += 1;
                runner.complete(id);
            }
            Step::Completed => break,
            other => panic!("unexpected step {:?}", other),
        }
    }
    assert_eq!(fixture_runs, 1);
    assert_eq!(test_runs, 3);
}

#[test]
fn independent_fixtures_both_run() {
    let tests = vec![
        test_config("t1", vec![InputRef::shared(1)], None),
        test_config("t2", vec![InputRef::shared(2)], None),
    ];
    let fixtures = vec![fixture_config("one", 1), fixture_config("two", 2)];
    let mut runner = Runner::new(tests, fixtures).unwrap();
    let (a, ra) = run_id(step(&mut runner));
    let (b, rb) = run_id(step(&mut runner));
    assert!(matches!(ra, NodeRole::Fixture(_)));
    assert!(matches!(rb, NodeRole::Fixture(_)));
    assert_ne!(a, b);
}

#[test]
fn completing_unknown_or_inactive_nodes_is_refused() {
    let mut builder = ScheduleBuilder::new();
    builder.register_node(1);
    builder.add_dependency(1, 2);
    let mut schedule = builder.build();
    assert_eq!(schedule.completion_error(99), Some(CompletionError::UnknownNode));
    assert_eq!(schedule.completion_error(2), Some(CompletionError::StillBlocked));
    assert_eq!(schedule.completion_error(1), Some(CompletionError::StillBlocked));
    assert_eq!(schedule.completion_error(START_NODE), Some(CompletionError::NotActive));
    assert_eq!(schedule.next(), NextInSchedule::Next(START_NODE));
    assert_eq!(schedule.completion_error(START_NODE), None);
    schedule.complete_node(START_NODE);
    assert_eq!(schedule.completion_error(START_NODE), Some(CompletionError::UnknownNode));
}

#[test]
fn n_nodes_take_n_plus_one_completions() {
    let mut builder = ScheduleBuilder::new();
    builder.register_node(1);
    builder.register_node(2);
    builder.add_dependency(1, 3);
    builder.add_exclusion(2, 3);
    let mut schedule = builder.build();
    let mut completions = 0;
    loop {
        match schedule.next() {
            NextInSchedule::Next(id) => {
                schedule.complete_node(id);
                completions += 1;
            }
            NextInSchedule::Completed => break,
            other => panic!("unexpected {:?}", other),
        }
    }
    assert_eq!(completions, 4);
}

#[test]
fn exclusion_holds_back_an_unblocked_node() {
    let mut builder = ScheduleBuilder::new();
    builder.register_node(1);
    builder.register_node(2);
    builder.add_exclusion(1, 2);
    let mut schedule = builder.build();
    assert_eq!(schedule.next(), NextInSchedule::Next(START_NODE));
    schedule.complete_node(START_NODE);
    let first = match schedule.next() {
        NextInSchedule::Next(id) => id,
        other => panic!("unexpected {:?}", other),
    };
    assert_eq!(schedule.next(), NextInSchedule::Running);
    schedule.complete_node(first);
    let second = match schedule.next() {
        NextInSchedule::Next(id) => id,
        other => panic!("unexpected {:?}", other),
    };
    assert_ne!(first, second);
    schedule.complete_node(second);
    assert_eq!(schedule.next(), NextInSchedule::Completed);
}

#[test]
fn a_node_waiting_on_nothing_that_never_runs_is_a_deadlock() {
    let mut builder = ScheduleBuilder::new();
    builder.add_dependency(1, 1);
    let mut schedule = builder.build();
    assert_eq!(schedule.next(), NextInSchedule::Next(START_NODE));
    schedule.complete_node(START_NODE);
    assert!(schedule.is_stalled());
}

#[test]
fn should_panic_inverts_the_verdict() {
    assert_eq!(judge(false, true), Outcome::Passed);
    assert_eq!(judge(false, false), Outcome::UnexpectedFailure);
    assert_eq!(judge(true, false), Outcome::ExpectedFailure);
    assert_eq!(judge(true, true), Outcome::UnexpectedFailure);
}

#[test]
fn a_node_held_by_two_excluders_is_released_by_the_last() {
    let mut builder = ScheduleBuilder::new();
    builder.register_node(1);
    builder.register_node(2);
    builder.register_node(3);
    builder.add_dependency(3, 4);
    builder.add_exclusion(1, 2);
    builder.add_exclusion(4, 2);
    let mut schedule = builder.build();
    assert_eq!(schedule.next(), NextInSchedule::Next(START_NODE));
    schedule.complete_node(START_NODE);
    assert_eq!(schedule.next(), NextInSchedule::Next(1));
    assert_eq!(schedule.next(), NextInSchedule::Next(3));
    assert_eq!(schedule.next(), NextInSchedule::Running);
    schedule.complete_node(3);
    schedule.complete_node(1);
    assert_eq!(schedule.next(), NextInSchedule::Next(4));
    assert_eq!(schedule.next(), NextInSchedule::Running);
    schedule.complete_node(4);
    assert_eq!(schedule.next(), NextInSchedule::Next(2));
    schedule.complete_node(2);
    assert_eq!(schedule.next(), NextInSchedule::Completed);
}

#[test]
fn distinct_ids_build_the_graph_with_those_ids() {
    let tests = vec![test_config("t", vec![InputRef::shared(MY_FIXTURE)], None)];
    let runner = Runner::with_ids(tests, vec![fixture_config("f", MY_FIXTURE)], vec![10, 20]).unwrap();
    assert_eq!(runner.test_node(0), 10);
}

#[test]
fn a_repeated_id_is_a_collision() {
    let tests = vec![test_config("t", vec![InputRef::shared(MY_FIXTURE)], None)];
    let r = Runner::with_ids(tests, vec![fixture_config("f", MY_FIXTURE)], vec![10, 10]);
    assert!(matches!(r, Err(BuildError::IdCollision(10))));
}

#[test]
fn the_start_id_is_a_collision() {
    let tests = vec![test_config("t", vec![], None)];
    let r = Runner::with_ids(tests, vec![], vec![START_NODE]);
    assert!(matches!(r, Err(BuildError::IdCollision(id)) if id == START_NODE));
}

#[test]
fn no_tests_always_build() {
    let mut runner = Runner::new(vec![], vec![fixture_config("f", MY_FIXTURE)]).unwrap();
    assert_eq!(step(&mut runner), Step::Completed);
}
