use critic::config::{FixtureConfig, InputRef, TestConfig};
use critic::engine::{carries, group_by_module, label_members, Engine, Label};
use critic::runner::BuildError;

fn test_in(module: &str, inputs: Vec<InputRef<u64>>, group: Option<&str>) -> TestConfig<()> {
    TestConfig {
        should_panic: false,
        subprocess: false,
        inputs,
        exclusion_group: group.map(|g| g.to_string()),
        runnable_fn: (),
        module: module.to_string(),
        name: "t".to_string(),
    }
}

#[test]
fn tests_are_grouped_by_module_in_order_of_appearance() {
    let tests = vec![test_in("a", vec![], None), test_in("b", vec![], None), test_in("a", vec![], None)];
    let groups = group_by_module(&tests);
    assert_eq!(groups.len(), 2);
    assert_eq!(groups[0].name, "a");
    assert_eq!(groups[0].tests, vec![0, 2]);
    assert_eq!(groups[1].name, "b");
    assert_eq!(groups[1].tests, vec![1]);
}

#[test]
fn no_tests_give_no_groups() {
    let tests: Vec<TestConfig<()>> = vec![];
    assert!(group_by_module(&tests).is_empty());
}

#[test]
fn labels_index_groups_and_borrowed_resources() {
    let tests = vec![
        test_in("m", vec![InputRef::shared(1)], Some("db")),
        test_in("m", vec![InputRef::owned(1)], None),
        test_in("m", vec![InputRef::exclusive(1), InputRef::shared(2)], Some("db")),
    ];
    assert_eq!(label_members(&tests, &Label::User("db".to_string())), vec![0, 2]);
    assert_eq!(label_members(&tests, &Label::Dependency(1)), vec![0, 2]);
    assert_eq!(label_members(&tests, &Label::Dependency(2)), vec![2]);
    assert!(label_members(&tests, &Label::User("cache".to_string())).is_empty());
    assert!(!carries(&tests[1], &Label::Dependency(1)));
}

#[test]
fn engine_reports_a_missing_producer() {
    let tests = vec![test_in("m", vec![InputRef::shared(9)], None)];
    let fixtures: Vec<FixtureConfig<()>> = vec![];
    assert!(matches!(Engine::new(tests, fixtures), Err(BuildError::MissingProducer(9))));
}

#[test]
fn engine_builds_groups_and_runner() {
    let tests = vec![test_in("m", vec![InputRef::shared(9)], None), test_in("n", vec![], None)];
    let fixtures = vec![FixtureConfig {
        inputs: vec![],
        output: 9,
        runnable_fn: (),
        module: "m".to_string(),
        name: "produce".to_string(),
    }];
    let engine = match Engine::new(tests, fixtures) {
        Ok(engine) => engine,
        Err(e) => panic!("{:?}", e),
    };
    assert_eq!(engine.groups.len(), 2);
    assert_ne!(engine.runner.test_node(0), engine.runner.test_node(1));
}

#[test]
fn runnables_take_what_the_configs_declare() {
    let config = TestConfig {
        should_panic: true,
        subprocess: true,
        inputs: vec![InputRef::shared(3u64), InputRef::exclusive(4)],
        exclusion_group: None,
        runnable_fn: 11u8,
        module: "m".to_string(),
        name: "t".to_string(),
    };
    let test = critic::runnable::TestRunnable::from_config(&config);
    assert!(test.should_panic);
    assert!(test.subprocess);
    assert_eq!(test.basic_runnable.inputs, config.inputs);
    assert_eq!(test.basic_runnable.runner, 11);
    let fixture = critic::runnable::FixtureRunnable::from_config(&FixtureConfig {
        inputs: vec![InputRef::shared(1u64)],
        output: 3,
        runnable_fn: 12u8,
        module: "m".to_string(),
        name: "f".to_string(),
    });
    assert!(fixture.runnable.inputs.is_empty());
    assert_eq!(fixture.runnable.runner, 12);
}

#[test]
fn engine_indexes_tests_by_label() {
    let tests = vec![
        test_in("m", vec![InputRef::shared(9)], Some("db")),
        test_in("m", vec![], Some("db")),
        test_in("m", vec![InputRef::exclusive(9)], None),
    ];
    let fixtures = vec![FixtureConfig {
        inputs: vec![],
        output: 9,
        runnable_fn: (),
        module: "m".to_string(),
        name: "produce".to_string(),
    }];
    let engine = match Engine::new(tests, fixtures) {
        Ok(engine) => engine,
        Err(e) => panic!("{:?}", e),
    };
    assert_eq!(engine.members(&Label::User("db".to_string())), vec![0, 1]);
    assert_eq!(engine.members(&Label::Dependency(9)), vec![0, 2]);
}
