use async_ecs::dispatcher::Error;
use async_ecs::{Builder, ResourceId};

fn no_deps() -> Vec<String> {
    Vec::new()
}

#[test]
fn dependencies_on_read_and_write() {
    let res_a = ResourceId::new(1);
    let res_b = ResourceId::new(2);
    let res_c = ResourceId::new(3);
    let res_d = ResourceId::new(4);

    let mut builder = Builder::new();
    builder.add("sys1".to_string(), &no_deps(), vec![res_a], vec![res_b]).unwrap();
    builder.add("sys2".to_string(), &no_deps(), vec![res_a], vec![res_c]).unwrap();
    builder.add("sys3".to_string(), &no_deps(), vec![res_b], vec![res_d]).unwrap();
    builder.add("sys4".to_string(), &no_deps(), vec![res_c], vec![res_d]).unwrap();
    builder
        .add("sys5".to_string(), &no_deps(), vec![res_a], vec![res_b, res_c, res_d])
        .unwrap();

    assert_eq!(builder.item(1).dependencies, Vec::<usize>::new());
    assert_eq!(builder.item(2).dependencies, Vec::<usize>::new());
    assert_eq!(builder.item(3).dependencies, vec![1]);
    assert_eq!(builder.item(4).dependencies, vec![2, 3]);
    assert_eq!(builder.item(5).dependencies, vec![4]);
    assert_eq!(builder.final_systems(), vec![5]);
}

#[test]
fn duplicate_name_is_rejected() {
    let mut builder = Builder::new();
    builder.add("a".to_string(), &no_deps(), vec![], vec![]).unwrap();

    match builder.add("a".to_string(), &no_deps(), vec![], vec![]) {
        Err(Error::NameAlreadyRegistered(n)) => assert_eq!(n, "a"),
        other => panic!("expected NameAlreadyRegistered, got {:?}", other),
    }
    assert_eq!(builder.len(), 1);
}

#[test]
fn unknown_dependency_is_rejected() {
    let mut builder = Builder::new();
    builder.add("a".to_string(), &no_deps(), vec![], vec![]).unwrap();

    match builder.add("b".to_string(), &vec!["missing".to_string()], vec![], vec![]) {
        Err(Error::DependencyWasNotFound(n)) => assert_eq!(n, "missing"),
        other => panic!("expected DependencyWasNotFound, got {:?}", other),
    }
    assert_eq!(builder.len(), 1);
}

#[test]
fn unnamed_units_never_conflict() {
    let mut builder = Builder::new();
    builder.add(String::new(), &no_deps(), vec![], vec![]).unwrap();
    builder.add(String::new(), &no_deps(), vec![], vec![]).unwrap();
    assert_eq!(builder.len(), 2);
}

#[test]
fn explicit_dependencies_resolve_in_order() {
    let mut builder = Builder::new();
    builder.add("a".to_string(), &no_deps(), vec![], vec![]).unwrap();
    builder.add("b".to_string(), &vec!["a".to_string()], vec![], vec![]).unwrap();
    builder.add("c".to_string(), &vec!["b".to_string()], vec![], vec![]).unwrap();

    assert_eq!(builder.item(2).dependencies, vec![1]);
    // the transitive edge through b makes a redundant for c
    assert_eq!(builder.item(3).dependencies, vec![2]);
    assert_eq!(builder.final_systems(), vec![3]);
}

#[test]
fn transitive_reduction_drops_implied_edge() {
    let mut builder = Builder::new();
    builder.add("a".to_string(), &no_deps(), vec![], vec![]).unwrap();
    builder.add("b".to_string(), &vec!["a".to_string()], vec![], vec![]).unwrap();
    builder
        .add("c".to_string(), &vec!["a".to_string(), "b".to_string()], vec![], vec![])
        .unwrap();

    assert_eq!(builder.item(3).dependencies, vec![2]);
}

#[test]
fn reads_and_writes_are_sorted_and_deduplicated() {
    let mut builder = Builder::new();
    builder
        .add(
            "a".to_string(),
            &no_deps(),
            vec![ResourceId::new(3), ResourceId::new(1), ResourceId::new(3)],
            vec![ResourceId::new(2), ResourceId::new(2)],
        )
        .unwrap();

    assert_eq!(builder.item(1).reads, vec![ResourceId::new(1), ResourceId::new(3)]);
    assert_eq!(builder.item(1).writes, vec![ResourceId::new(2)]);
}

#[test]
fn depends_on_follows_transitive_edges() {
    let mut builder = Builder::new();
    builder.add("a".to_string(), &no_deps(), vec![], vec![]).unwrap();
    builder.add("b".to_string(), &vec!["a".to_string()], vec![], vec![]).unwrap();
    builder.add("c".to_string(), &vec!["b".to_string()], vec![], vec![]).unwrap();

    assert!(builder.depends_on(3, 1));
    assert!(builder.depends_on(3, 2));
    assert!(builder.depends_on(2, 1));
    assert!(!builder.depends_on(1, 3));
}

#[test]
fn independent_units_are_all_final() {
    let mut builder = Builder::new();
    builder.add("a".to_string(), &no_deps(), vec![ResourceId::new(1)], vec![]).unwrap();
    builder.add("b".to_string(), &no_deps(), vec![ResourceId::new(1)], vec![]).unwrap();

    // two readers of the same resource do not conflict
    assert_eq!(builder.item(1).dependencies, Vec::<usize>::new());
    assert_eq!(builder.item(2).dependencies, Vec::<usize>::new());
    assert_eq!(builder.final_systems(), vec![1, 2]);
}
