use jit_core::constructors::ConstructorRegistry;

#[test]
fn constructors_run_by_ascending_priority() {
    let mut reg = ConstructorRegistry::new();
    reg.add_global_constructor(5, 100, None);
    reg.add_global_constructor(0, 101, Some(7));
    reg.add_global_constructor(10, 102, None);
    assert_eq!(reg.execution_order(), vec![1, 0, 2]);
    let prios: Vec<u32> = reg.ordered().iter().map(|c| c.priority).collect();
    assert_eq!(prios, vec![0, 5, 10]);
    assert_eq!(reg.ordered()[0].initialized_value, Some(7));
}

#[test]
fn equal_priorities_keep_registration_order() {
    let mut reg = ConstructorRegistry::new();
    reg.add_global_constructor(3, 1, None);
    reg.add_global_constructor(1, 2, None);
    reg.add_global_constructor(3, 3, None);
    reg.add_global_constructor(1, 4, None);
    let targets: Vec<u32> = reg.ordered().iter().map(|c| c.target).collect();
    assert_eq!(targets, vec![2, 4, 1, 3]);
}

#[test]
fn no_constructors_give_an_empty_order() {
    let reg = ConstructorRegistry::new();
    assert!(reg.execution_order().is_empty());
    assert!(reg.ordered().is_empty());
}
