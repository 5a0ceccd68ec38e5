use legion::hierarchy::{parent_update_system, ChildrenTable, ParentChange, RemovedParent};

#[test]
fn removed_parent_leaves_children_list() {
    let mut table = ChildrenTable::new();
    table.set_children(1, vec![10, 11, 12]);
    let removed = vec![RemovedParent { entity: 11, previous_parent: 1 }, RemovedParent { entity: 20, previous_parent: 2 }];
    let commands = parent_update_system(&mut table, &removed, &Vec::new());
    assert_eq!(table.children_of(1), Some(vec![10, 12]));
    assert_eq!(commands.remove_previous_parent, vec![11]);
    assert!(commands.previous_parent_updates.is_empty());
    assert!(commands.insert_children.is_empty());
}

#[test]
fn changed_parent_moves_child() {
    let mut table = ChildrenTable::new();
    table.set_children(1, vec![10, 11]);
    table.set_children(2, vec![20]);
    let changed = vec![
        ParentChange { entity: 11, parent: 2, previous_parent: Some(1) },
        ParentChange { entity: 10, parent: 1, previous_parent: Some(1) },
        ParentChange { entity: 20, parent: 2, previous_parent: None },
    ];
    let commands = parent_update_system(&mut table, &Vec::new(), &changed);
    assert_eq!(table.children_of(1), Some(vec![10]));
    assert_eq!(table.children_of(2), Some(vec![20, 11]));
    assert_eq!(commands.previous_parent_updates, vec![(11, 2), (20, 2)]);
    assert!(commands.remove_previous_parent.is_empty());
}

#[test]
fn parent_without_children_gets_new_component() {
    let mut table = ChildrenTable::new();
    let changed = vec![
        ParentChange { entity: 5, parent: 3, previous_parent: None },
        ParentChange { entity: 6, parent: 4, previous_parent: None },
        ParentChange { entity: 7, parent: 3, previous_parent: None },
    ];
    let commands = parent_update_system(&mut table, &Vec::new(), &changed);
    assert_eq!(commands.insert_children, vec![(3, vec![5, 7]), (4, vec![6])]);
    assert_eq!(table.children_of(3), None);
    assert_eq!(commands.previous_parent_updates, vec![(5, 3), (6, 4), (7, 3)]);
}

fn run_update(table: &mut ChildrenTable, removed: &Vec<RemovedParent>, changed: &Vec<ParentChange>) {
    let commands = parent_update_system(table, removed, changed);
    for (parent, children) in commands.insert_children {
        table.set_children(parent, children);
    }
}

#[test]
fn correct_children() {
    let parent: u64 = 1;
    let children: Vec<u64> = vec![2, 3];
    let mut table = ChildrenTable::new();
    table.set_children(parent, children.clone());
    let spawned = vec![
        ParentChange { entity: children[0], parent, previous_parent: Some(parent) },
        ParentChange { entity: children[1], parent, previous_parent: Some(parent) },
    ];
    run_update(&mut table, &Vec::new(), &spawned);
    assert_eq!(table.children_of(parent).unwrap(), children);

    // Parent `e1` to `e2`.
    let moved = vec![ParentChange { entity: children[0], parent: children[1], previous_parent: Some(parent) }];
    run_update(&mut table, &Vec::new(), &moved);
    assert_eq!(table.children_of(parent).unwrap(), vec![children[1]]);
    assert_eq!(table.children_of(children[1]).unwrap(), vec![children[0]]);

    // Despawning `e1`: it no longer has a parent, only its previous one.
    let despawned = vec![RemovedParent { entity: children[0], previous_parent: children[1] }];
    run_update(&mut table, &despawned, &Vec::new());
    assert_eq!(table.children_of(parent).unwrap(), vec![children[1]]);
}
