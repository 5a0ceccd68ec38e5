use legion::asset_registry::{AccessGuard, Ref};
use legion::graph::{
    build_dependency_graph, topological_order, Dependency, DependencyGraphError, LabelledNode,
};

/// A reference taken while reading can outlive the reader's own guard
/// object and live as long as the data it points to.
#[test]
fn long_life_test() {
    struct Holder<'w> {
        value: &'w u32,
    }

    let resource = 42u32;
    let mut guard = AccessGuard::new();
    let holder = {
        let r = Ref::new(&resource, &mut guard);
        let h = Holder { value: r.get() };
        r.release(&mut guard);
        h
    };
    assert_eq!(*holder.value, 42);
    assert_eq!(guard.value(), 0);
}

fn node(name: &str, labels: &[u64], before: &[u64], after: &[u64]) -> LabelledNode {
    LabelledNode {
        name: name.to_string(),
        labels: labels.to_vec(),
        before: before.to_vec(),
        after: after.to_vec(),
    }
}

fn deps_of(g: &[Vec<Dependency>], a: usize) -> Vec<(usize, Vec<u64>)> {
    let mut v: Vec<(usize, Vec<u64>)> = g[a]
        .iter()
        .map(|d| {
            let mut l = d.labels.clone();
            l.sort();
            (d.node, l)
        })
        .collect();
    v.sort();
    v
}

#[test]
fn graph_from_before_and_after_labels() {
    // 0 carries label 10, 1 runs after 10, 2 runs before 10 and carries 20.
    let nodes = vec![
        node("a", &[10], &[], &[]),
        node("b", &[], &[], &[10]),
        node("c", &[20], &[10], &[]),
    ];
    let g = build_dependency_graph(&nodes);
    assert_eq!(g.len(), 3);
    assert_eq!(deps_of(&g, 0), vec![(2, vec![10])]);
    assert_eq!(deps_of(&g, 1), vec![(0, vec![10])]);
    assert_eq!(deps_of(&g, 2), vec![]);
}

#[test]
fn unknown_labels_put_no_dependency() {
    let nodes = vec![node("a", &[1], &[7], &[8]), node("b", &[], &[], &[9])];
    let g = build_dependency_graph(&nodes);
    assert!(g.iter().all(|row| row.is_empty()));
}

#[test]
fn labels_of_one_dependency_are_gathered() {
    let nodes = vec![node("a", &[1, 2], &[], &[]), node("b", &[], &[], &[1, 2, 1])];
    let g = build_dependency_graph(&nodes);
    assert_eq!(deps_of(&g, 1), vec![(0, vec![1, 2])]);
}

#[test]
fn topological_order_puts_dependencies_first() {
    let nodes = vec![
        node("render", &[3], &[], &[2]),
        node("input", &[1], &[2], &[]),
        node("update", &[2], &[], &[1]),
    ];
    let g = build_dependency_graph(&nodes);
    let order = match topological_order(&g) {
        Ok(o) => o,
        Err(_) => panic!("no cycle expected"),
    };
    assert_eq!(order, vec![1, 2, 0]);
}

#[test]
fn cycle_is_reported() {
    let nodes = vec![node("a", &[1], &[], &[2]), node("b", &[2], &[], &[1])];
    let g = build_dependency_graph(&nodes);
    match topological_order(&g) {
        Ok(_) => panic!("cycle expected"),
        Err(DependencyGraphError::GraphCycles(cycle)) => {
            assert_eq!(cycle.len(), 2);
            for (k, (n, labels)) in cycle.iter().enumerate() {
                let next = cycle[(k + 1) % cycle.len()].0;
                let dep = g[*n].iter().find(|d| d.node == next).unwrap();
                assert_eq!(&dep.labels, labels);
            }
        }
    }
}

#[test]
fn self_dependency_is_a_cycle() {
    let nodes = vec![node("a", &[4], &[], &[4])];
    let g = build_dependency_graph(&nodes);
    match topological_order(&g) {
        Ok(_) => panic!("cycle expected"),
        Err(DependencyGraphError::GraphCycles(cycle)) => assert_eq!(cycle, vec![(0, vec![4])]),
    }
}

#[test]
fn empty_graph_has_empty_order() {
    let nodes: Vec<LabelledNode> = vec![];
    let g = build_dependency_graph(&nodes);
    assert!(matches!(topological_order(&g), Ok(o) if o.is_empty()));
}
