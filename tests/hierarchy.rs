use rollsafe_hierarchy::{
    Commands, Entity, IdManager, RollSafeChildren, RollSafeId, RollSafeParent, World,
};

fn child_ids(world: &World, e: Entity) -> Vec<usize> {
    match world.children(e) {
        Some(list) => list.to_vec().iter().map(|i| i.0).collect(),
        None => Vec::new(),
    }
}

fn id_of(world: &World, e: Entity) -> usize {
    world.id(e).expect("entity has an identity").0
}

fn parent_of(world: &World, e: Entity) -> Option<usize> {
    world.parent(e).map(|p| p.get().0)
}

fn spawn(world: &mut World, n: usize) -> Vec<Entity> {
    (0..n).map(|_| world.spawn_empty()).collect()
}

#[test]
fn scenario_add_remove_destroy() {
    let mut world = World::new();
    let e = spawn(&mut world, 3);
    let (a, b, c) = (e[0], e[1], e[2]);

    world.add_child(a, b);
    assert_eq!(parent_of(&world, b), Some(id_of(&world, a)));
    assert_eq!(child_ids(&world, a), vec![id_of(&world, b)]);

    world.add_child(a, c);
    assert_eq!(child_ids(&world, a), vec![id_of(&world, b), id_of(&world, c)]);

    world.remove_children(a, &[b]);
    assert_eq!(child_ids(&world, a), vec![id_of(&world, c)]);
    assert_eq!(world.parent(b), None);

    world.update_id_entity_map();
    let a_id = id_of(&world, a);
    let c_id = id_of(&world, c);
    let b_id = id_of(&world, b);
    world.rollsafe_despawn_recursive(a);
    assert!(!world.is_alive(a));
    assert!(!world.is_alive(c));
    assert!(world.is_alive(b));
    assert_eq!(world.parent(b), None);
    assert_eq!(world.id(b), Some(RollSafeId(b_id)));
    let free = world.id_manager().released().to_vec();
    assert!(free.contains(&a_id));
    assert!(free.contains(&c_id));
    assert!(!free.contains(&b_id));
    assert_eq!(world.resolve(RollSafeId(a_id)), None);
    assert_eq!(world.resolve(RollSafeId(c_id)), None);
    assert_eq!(world.resolve(RollSafeId(b_id)), Some(b));
}

#[test]
fn push_then_insert_keeps_order() {
    let mut world = World::new();
    let e = spawn(&mut world, 5);
    let (p, a, b, c, d) = (e[0], e[1], e[2], e[3], e[4]);
    world.push_children(p, &[a, b, c]);
    world.insert_children(p, 1, &[d]);
    let ids: Vec<usize> = [a, d, b, c].iter().map(|x| id_of(&world, *x)).collect();
    assert_eq!(child_ids(&world, p), ids);
    for x in [a, b, c, d] {
        assert_eq!(parent_of(&world, x), Some(id_of(&world, p)));
    }
}

#[test]
fn add_child_twice_is_add_child_once() {
    let mut once = World::new();
    let mut twice = World::new();
    let e1 = spawn(&mut once, 3);
    let e2 = spawn(&mut twice, 3);
    once.add_child(e1[0], e1[2]);
    once.add_child(e1[0], e1[1]);
    twice.add_child(e2[0], e2[2]);
    twice.add_child(e2[0], e2[1]);
    twice.add_child(e2[0], e2[1]);
    for i in 0..3 {
        assert_eq!(child_ids(&once, e1[i]), child_ids(&twice, e2[i]));
        assert_eq!(parent_of(&once, e1[i]), parent_of(&twice, e2[i]));
        assert_eq!(once.id(e1[i]), twice.id(e2[i]));
    }
    assert_eq!(
        once.id_manager().released().to_vec(),
        twice.id_manager().released().to_vec()
    );
}

#[test]
fn replace_children_round_trip() {
    let mut world = World::new();
    let e = spawn(&mut world, 6);
    let p = e[0];
    world.push_children(p, &[e[1], e[2], e[3]]);
    world.replace_children(p, &[e[4], e[2], e[5]]);
    let ids: Vec<usize> = [e[4], e[2], e[5]].iter().map(|x| id_of(&world, *x)).collect();
    assert_eq!(child_ids(&world, p), ids);
    assert_eq!(world.parent(e[1]), None);
    assert_eq!(world.parent(e[3]), None);
    assert_eq!(parent_of(&world, e[2]), Some(id_of(&world, p)));
}

#[test]
fn replace_children_with_nothing_drops_the_list() {
    let mut world = World::new();
    let e = spawn(&mut world, 3);
    world.push_children(e[0], &[e[1], e[2]]);
    world.replace_children(e[0], &[]);
    assert!(world.children(e[0]).is_none());
    assert_eq!(world.parent(e[1]), None);
    assert_eq!(world.parent(e[2]), None);
}

#[test]
fn reparent_moves_child_and_drops_empty_list() {
    let mut world = World::new();
    let e = spawn(&mut world, 3);
    let (p, q, c) = (e[0], e[1], e[2]);
    world.add_child(p, c);
    world.add_child(q, c);
    assert!(world.children(p).is_none());
    assert_eq!(child_ids(&world, q), vec![id_of(&world, c)]);
    assert_eq!(parent_of(&world, c), Some(id_of(&world, q)));
}

#[test]
fn set_parent_is_add_child() {
    let mut world = World::new();
    let e = spawn(&mut world, 2);
    world.set_parent(e[1], e[0]);
    assert_eq!(child_ids(&world, e[0]), vec![id_of(&world, e[1])]);
    assert_eq!(parent_of(&world, e[1]), Some(id_of(&world, e[0])));
}

#[test]
fn push_existing_child_keeps_its_place() {
    let mut world = World::new();
    let e = spawn(&mut world, 5);
    world.push_children(e[0], &[e[1], e[2], e[3]]);
    world.push_children(e[0], &[e[1], e[4]]);
    let ids: Vec<usize> = [e[1], e[2], e[3], e[4]].iter().map(|x| id_of(&world, *x)).collect();
    assert_eq!(child_ids(&world, e[0]), ids);
}

#[test]
fn add_child_already_present_is_a_no_op() {
    let mut world = World::new();
    let e = spawn(&mut world, 4);
    world.push_children(e[0], &[e[1], e[2], e[3]]);
    let before = child_ids(&world, e[0]);
    world.add_child(e[0], e[2]);
    assert_eq!(child_ids(&world, e[0]), before);
    assert_eq!(parent_of(&world, e[2]), Some(id_of(&world, e[0])));
}

#[test]
fn spawn_child_appends_a_new_slot() {
    let mut world = World::new();
    let p = world.spawn_empty();
    let a = world.spawn_child(p);
    let b = world.spawn_child(p);
    assert!(world.is_alive(a) && world.is_alive(b));
    assert_eq!(child_ids(&world, p), vec![id_of(&world, a), id_of(&world, b)]);
    assert_eq!(parent_of(&world, b), Some(id_of(&world, p)));
}

#[test]
fn recursive_destroy_through_a_cycle() {
    let mut world = World::new();
    let e = spawn(&mut world, 3);
    world.add_child(e[0], e[1]);
    world.add_child(e[1], e[0]);
    world.rollsafe_despawn_recursive(e[0]);
    assert!(!world.is_alive(e[0]));
    assert!(!world.is_alive(e[1]));
    assert!(world.is_alive(e[2]));
}

#[test]
fn push_with_repeats_lists_each_once() {
    let mut world = World::new();
    let e = spawn(&mut world, 3);
    world.push_children(e[0], &[e[1], e[2], e[1]]);
    let ids: Vec<usize> = [e[1], e[2]].iter().map(|x| id_of(&world, *x)).collect();
    assert_eq!(child_ids(&world, e[0]), ids);
}

#[test]
fn insert_past_the_end_appends() {
    let mut world = World::new();
    let e = spawn(&mut world, 4);
    world.push_children(e[0], &[e[1], e[2]]);
    world.insert_children(e[0], 10, &[e[3]]);
    let ids: Vec<usize> = [e[1], e[2], e[3]].iter().map(|x| id_of(&world, *x)).collect();
    assert_eq!(child_ids(&world, e[0]), ids);
}

#[test]
fn insert_moves_present_children() {
    let mut world = World::new();
    let e = spawn(&mut world, 5);
    world.push_children(e[0], &[e[1], e[2], e[3], e[4]]);
    world.insert_children(e[0], 1, &[e[3], e[1]]);
    let ids: Vec<usize> = [e[2], e[3], e[1], e[4]].iter().map(|x| id_of(&world, *x)).collect();
    assert_eq!(child_ids(&world, e[0]), ids);
}

#[test]
fn remove_children_ignores_others() {
    let mut world = World::new();
    let e = spawn(&mut world, 4);
    world.add_child(e[0], e[1]);
    world.add_child(e[2], e[3]);
    world.remove_children(e[0], &[e[3]]);
    assert_eq!(child_ids(&world, e[0]), vec![id_of(&world, e[1])]);
    assert_eq!(parent_of(&world, e[3]), Some(id_of(&world, e[2])));
    world.remove_children(e[0], &[e[1]]);
    assert!(world.children(e[0]).is_none());
    assert_eq!(world.parent(e[1]), None);
}

#[test]
fn clear_children_strips_every_parent() {
    let mut world = World::new();
    let e = spawn(&mut world, 4);
    world.push_children(e[0], &[e[1], e[2], e[3]]);
    world.clear_children(e[0]);
    assert!(world.children(e[0]).is_none());
    for x in &e[1..] {
        assert_eq!(world.parent(*x), None);
    }
}

#[test]
fn remove_parent_takes_child_off_list() {
    let mut world = World::new();
    let e = spawn(&mut world, 3);
    world.push_children(e[0], &[e[1], e[2]]);
    world.remove_parent(e[1]);
    assert_eq!(world.parent(e[1]), None);
    assert_eq!(child_ids(&world, e[0]), vec![id_of(&world, e[2])]);
    world.remove_parent(e[1]);
    assert_eq!(child_ids(&world, e[0]), vec![id_of(&world, e[2])]);
}

#[test]
fn recursive_destroy_takes_whole_subtree() {
    let mut world = World::new();
    let e = spawn(&mut world, 5);
    world.add_child(e[0], e[1]);
    world.push_children(e[1], &[e[2], e[3]]);
    world.add_child(e[3], e[4]);
    let ids: Vec<usize> = e[1..].iter().map(|x| id_of(&world, *x)).collect();
    world.rollsafe_despawn_recursive(e[1]);
    assert!(world.is_alive(e[0]));
    assert!(world.children(e[0]).is_none());
    for x in &e[1..] {
        assert!(!world.is_alive(*x));
    }
    let free = world.id_manager().released().to_vec();
    for i in &ids {
        assert!(free.contains(i));
        assert_eq!(world.resolve(RollSafeId(*i)), None);
    }
}

#[test]
fn recursive_destroy_of_lone_entity() {
    let mut world = World::new();
    let e = world.spawn_empty();
    world.rollsafe_despawn_recursive(e);
    assert!(!world.is_alive(e));
    assert!(world.id_manager().released().is_empty());
}

#[test]
fn released_ids_are_reused_last_first() {
    let mut world = World::new();
    let e = spawn(&mut world, 3);
    world.add_child(e[0], e[1]);
    let p_id = id_of(&world, e[0]);
    let c_id = id_of(&world, e[1]);
    assert_eq!((p_id, c_id), (0, 1));
    world.rollsafe_despawn_recursive(e[0]);
    let released = world.id_manager().released().to_vec();
    let last = *released.last().unwrap();
    let f = world.spawn_empty();
    world.add_child(f, e[2]);
    assert_eq!(id_of(&world, f), last);
}

#[test]
fn id_manager_allocates_and_recycles() {
    let mut m = IdManager::new();
    assert_eq!(m.alloc_id(), RollSafeId(0));
    assert_eq!(m.alloc_id(), RollSafeId(1));
    assert_eq!(m.alloc_id(), RollSafeId(2));
    m.free_id(RollSafeId(0));
    m.free_id(RollSafeId(2));
    assert_eq!(m.alloc_id(), RollSafeId(2));
    assert_eq!(m.alloc_id(), RollSafeId(0));
    assert_eq!(m.alloc_id(), RollSafeId(3));
    assert_eq!(m.next_id(), 4);
}

#[test]
fn id_manager_rebuild_and_lookup() {
    let mut m = IdManager::default();
    assert_eq!(m.lookup_entity(RollSafeId(5)), None);
    m.rebuild(&vec![(Entity(7), RollSafeId(5)), (Entity(9), RollSafeId(1))]);
    assert_eq!(m.lookup_entity(RollSafeId(5)), Some(Entity(7)));
    assert_eq!(m.lookup_entity(RollSafeId(1)), Some(Entity(9)));
    m.rebuild(&vec![(Entity(3), RollSafeId(1))]);
    assert_eq!(m.lookup_entity(RollSafeId(5)), None);
    assert_eq!(m.lookup_entity(RollSafeId(1)), Some(Entity(3)));
    m.free_id(RollSafeId(1));
    assert_eq!(m.lookup_entity(RollSafeId(1)), None);
    assert_eq!(m.released().to_vec(), vec![1]);
}

#[test]
fn refresh_keeps_every_resolution() {
    let mut world = World::new();
    let e = spawn(&mut world, 3);
    world.push_children(e[0], &[e[1], e[2]]);
    world.update_id_entity_map();
    for x in &e {
        assert_eq!(world.resolve(RollSafeId(id_of(&world, *x))), Some(*x));
    }
}

#[test]
fn parent_marker_accessors() {
    let p = RollSafeParent(RollSafeId(4));
    assert_eq!(p.get(), RollSafeId(4));
    assert_eq!(p.as_slice(), &[RollSafeId(4)]);
}

#[test]
fn children_list_operations() {
    let l = RollSafeChildren::single(RollSafeId(3));
    let l = l.inserted(0, RollSafeId(1)).inserted(2, RollSafeId(5));
    assert_eq!(l.to_vec(), vec![RollSafeId(1), RollSafeId(3), RollSafeId(5)]);
    assert_eq!(l.len(), 3);
    assert_eq!(l.get(1), RollSafeId(3));
    assert!(l.contains(RollSafeId(5)));
    assert!(!l.contains(RollSafeId(4)));
    let l = l.without(RollSafeId(3));
    assert_eq!(l.to_vec(), vec![RollSafeId(1), RollSafeId(5)]);
}

#[test]
fn queued_commands_match_direct_calls() {
    let mut direct = World::new();
    let mut queued = World::new();
    let d = spawn(&mut direct, 5);
    let q = spawn(&mut queued, 5);

    direct.push_children(d[0], &[d[1], d[2], d[3]]);
    direct.insert_children(d[0], 1, &[d[4]]);
    direct.remove_children(d[0], &[d[2]]);
    direct.add_child(d[4], d[2]);
    direct.remove_parent(d[1]);
    direct.rollsafe_despawn_recursive(d[4]);

    let mut commands = Commands::new();
    commands.push_children(q[0], vec![q[1], q[2], q[3]]);
    commands.insert_children(q[0], 1, vec![q[4]]);
    commands.remove_children(q[0], vec![q[2]]);
    commands.add_child(q[4], q[2]);
    commands.remove_parent(q[1]);
    commands.rollsafe_despawn_recursive(q[4]);
    assert_eq!(commands.len(), 6);
    commands.apply(&mut queued);
    assert_eq!(commands.len(), 0);

    for i in 0..5 {
        assert_eq!(direct.is_alive(d[i]), queued.is_alive(q[i]));
        assert_eq!(direct.id(d[i]), queued.id(q[i]));
        assert_eq!(parent_of(&direct, d[i]), parent_of(&queued, q[i]));
        assert_eq!(child_ids(&direct, d[i]), child_ids(&queued, q[i]));
    }
    assert!(!queued.is_alive(q[2]));
    assert!(queued.is_alive(q[3]));
}

#[test]
fn queued_commands_skip_destroyed_targets() {
    let mut world = World::new();
    let e = spawn(&mut world, 3);
    let mut commands = Commands::new();
    commands.rollsafe_despawn_recursive(e[0]);
    commands.push_children(e[0], vec![e[1]]);
    commands.clear_children(e[0]);
    commands.replace_children(e[2], vec![e[0], e[1]]);
    commands.set_parent(e[0], e[2]);
    commands.apply(&mut world);
    assert!(!world.is_alive(e[0]));
    assert_eq!(child_ids(&world, e[2]), vec![id_of(&world, e[1])]);
    assert_eq!(parent_of(&world, e[1]), Some(id_of(&world, e[2])));
}

#[test]
fn push_nothing_leaves_no_empty_list() {
    let mut world = World::new();
    let p = world.spawn_empty();
    world.push_children(p, &[]);
    assert!(world.children(p).is_none());
    assert_eq!(world.id(p), None);
}
