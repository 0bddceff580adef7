use runa::world::{AppliedCommand, LifecyclePass, Object, World, WorldCommand, TRANSFORM_KEY};

const SCRIPT_KEY: u64 = 77;
const SPRITE_KEY: u64 = 4;

fn object(name: &str) -> Object<u32> {
    Object::new(name.to_string(), 0)
}

#[test]
fn deferred_despawn_applies_after_update_phase() {
    let mut world: World<u32> = World::new();
    let id = world.spawn(object("Transient").with(SCRIPT_KEY, 1));
    world.begin_lifecycle();
    world.finish_start();

    assert_eq!(world.query(TRANSFORM_KEY).len(), 1);
    // The object's script asks for its own despawn during the update pass.
    world.begin_lifecycle();
    assert!(world.despawn(id));
    assert_eq!(world.query(TRANSFORM_KEY).len(), 1);
    world.end_lifecycle();
    world.apply_commands();
    assert!(world.query(TRANSFORM_KEY).is_empty());
}

#[test]
fn spawn_hands_out_fresh_increasing_ids() {
    let mut world: World<u32> = World::new();
    assert_eq!(world.next_object_id(), 1);
    let a = world.spawn(object("A"));
    let b = world.spawn(object("B"));
    assert_eq!((a, b), (1, 2));
    assert!(world.despawn(a));
    let c = world.spawn(object("C"));
    assert_eq!(c, 3);
    assert_eq!(world.object_ids(), vec![2, 3]);
    assert_eq!(world.len(), 2);
    assert_eq!(world.get(c).unwrap().name(), "C");
    assert!(world.get(a).is_none());
}

#[test]
fn set_parent_links_both_ways_and_refuses_cycles() {
    let mut world: World<u32> = World::new();
    let root = world.spawn(object("root"));
    let mid = world.spawn(object("mid"));
    let leaf = world.spawn(object("leaf"));

    assert!(world.set_parent(mid, Some(root)));
    assert!(world.set_parent(leaf, Some(mid)));
    assert_eq!(world.parent(leaf), Some(mid));
    assert_eq!(world.children(root), vec![mid]);
    assert!(world.is_descendant_of(leaf, root));
    assert!(!world.is_descendant_of(root, leaf));

    // A parent below the child, the child itself, or a missing object is refused.
    assert!(!world.set_parent(root, Some(leaf)));
    assert!(!world.set_parent(mid, Some(mid)));
    assert!(!world.set_parent(mid, Some(99)));
    assert!(!world.set_parent(99, None));
    assert_eq!(world.parent(root), None);

    // Setting the same parent again changes nothing and succeeds.
    assert!(world.set_parent(leaf, Some(mid)));
    assert_eq!(world.children(mid), vec![leaf]);

    // Moving to another parent updates both sides.
    assert!(world.set_parent(leaf, Some(root)));
    assert_eq!(world.children(mid), Vec::<u64>::new());
    assert_eq!(world.children(root), vec![mid, leaf]);
    assert!(world.set_parent(leaf, None));
    assert_eq!(world.root_object_ids(), vec![root, leaf]);
}

#[test]
fn despawn_removes_the_whole_subtree() {
    let mut world: World<u32> = World::new();
    let root = world.spawn(object("root"));
    let a = world.spawn(object("a"));
    let b = world.spawn(object("b"));
    let c = world.spawn(object("c"));
    let other = world.spawn(object("other"));
    world.set_parent(a, Some(root));
    world.set_parent(b, Some(a));
    world.set_parent(c, Some(root));

    assert!(world.despawn(a));
    assert!(world.get(a).is_none());
    assert!(world.get(b).is_none());
    assert_eq!(world.object_ids(), vec![root, c, other]);
    assert_eq!(world.children(root), vec![c]);
    assert!(!world.despawn(a));
    assert!(world.despawn(root));
    assert_eq!(world.object_ids(), vec![other]);
}

#[test]
fn take_object_returns_it_and_is_refused_during_lifecycle() {
    let mut world: World<u32> = World::new();
    let parent = world.spawn(object("parent"));
    let child = world.spawn(object("child").with(SPRITE_KEY, 9));
    world.set_parent(child, Some(parent));

    world.begin_lifecycle();
    assert!(world.take_object(child).is_none());
    world.end_lifecycle();

    let taken = world.take_object(child).unwrap();
    assert_eq!(taken.name(), "child");
    assert_eq!(taken.get_component(SPRITE_KEY), Some(&9));
    assert!(world.children(parent).is_empty());
    assert!(world.take_object(child).is_none());
}

#[test]
fn queued_commands_apply_in_order() {
    let mut world: World<u32> = World::new();
    let a = world.spawn(object("a"));
    world.queue_command(WorldCommand::Spawn(object("b")));
    world.queue_command(WorldCommand::Despawn(a));
    world.queue_command(WorldCommand::Despawn(40));
    let applied = world.apply_commands();
    assert_eq!(
        applied,
        vec![AppliedCommand::Spawned(2), AppliedCommand::Despawned(a, true), AppliedCommand::Despawned(40, false)]
    );
    assert_eq!(world.object_ids(), vec![2]);
    assert_eq!(world.apply_next_command(), None);
}

#[test]
fn component_queries_follow_object_order() {
    let mut world: World<u32> = World::new();
    let a = world.spawn(object("a"));
    let b = world.spawn(object("b").with(SPRITE_KEY, 1));
    let c = world.spawn(object("c").with(SPRITE_KEY, 2));
    assert_eq!(world.find_all_with(SPRITE_KEY), vec![b, c]);
    assert_eq!(world.find_first_with(SPRITE_KEY), Some(b));
    assert_eq!(world.find_first_with(SCRIPT_KEY), None);
    assert_eq!(world.query(TRANSFORM_KEY), vec![a, b, c]);
}

#[test]
fn components_are_replaced_and_the_transform_stays() {
    let mut o = object("o");
    o.add_component(SPRITE_KEY, 1);
    o.add_component(SPRITE_KEY, 2);
    assert_eq!(o.component_type_ids(), vec![TRANSFORM_KEY, SPRITE_KEY]);
    assert_eq!(o.get_component(SPRITE_KEY), Some(&2));
    assert!(!o.remove_component_type_id(TRANSFORM_KEY));
    assert!(o.remove_component_type_id(SPRITE_KEY));
    assert!(!o.has_component(SPRITE_KEY));
    assert_eq!(o.component_count(), 1);
}

#[test]
fn debug_switches_are_kept() {
    let mut world: World<u32> = World::new();
    assert!(!world.is_debug_draw_collisions_enabled());
    world.set_debug_draw_collisions(true);
    assert!(world.is_debug_draw_collisions_enabled());
}

#[test]
fn repair_lists_children_in_object_order() {
    let mut world: World<u32> = World::new();
    let root = world.spawn(object("root"));
    let a = world.spawn(object("a"));
    let b = world.spawn(object("b"));
    world.set_parent(b, Some(root));
    world.set_parent(a, Some(root));
    assert_eq!(world.children(root), vec![b, a]);
    world.repair_hierarchy();
    assert_eq!(world.children(root), vec![a, b]);
    assert_eq!(world.parent(a), Some(root));
    assert_eq!(world.parent(b), Some(root));
    assert_eq!(world.root_object_ids(), vec![root]);
}

#[test]
fn component_in_children_searches_depth_first() {
    let mut world: World<u32> = World::new();
    let root = world.spawn(object("root"));
    let a = world.spawn(object("a"));
    let a1 = world.spawn(object("a1").with(SPRITE_KEY, 11));
    let b = world.spawn(object("b").with(SPRITE_KEY, 20));
    assert!(world.set_parent(a, Some(root)));
    assert!(world.set_parent(b, Some(root)));
    assert!(world.set_parent(a1, Some(a)));

    // `a`'s subtree comes before its later sibling `b`.
    assert_eq!(world.get_component_in_children(root, SPRITE_KEY), Some(&11));
    assert_eq!(world.get_component_in_children(b, SPRITE_KEY), Some(&20));
    assert_eq!(world.get_component_in_children(a, SCRIPT_KEY), None);
    // The object's own component wins over its children's.
    assert_eq!(world.get_component_in_children(root, TRANSFORM_KEY), Some(&0));
    assert_eq!(world.get_component_in_children(99, TRANSFORM_KEY), None);
}

#[test]
fn component_in_parent_walks_up_to_the_nearest_holder() {
    let mut world: World<u32> = World::new();
    let top = world.spawn(object("top").with(SCRIPT_KEY, 5));
    let mid = world.spawn(object("mid").with(SCRIPT_KEY, 6));
    let leaf = world.spawn(object("leaf"));
    assert!(world.set_parent(mid, Some(top)));
    assert!(world.set_parent(leaf, Some(mid)));

    assert_eq!(world.get_component_in_parent(leaf, SCRIPT_KEY), Some(&6));
    assert_eq!(world.get_component_in_parent(top, SCRIPT_KEY), Some(&5));
    assert_eq!(world.get_component_in_parent(leaf, SPRITE_KEY), None);
    assert!(world.set_parent(mid, None));
    assert_eq!(world.get_component_in_parent(leaf, SCRIPT_KEY), Some(&6));
    assert!(world.set_parent(leaf, Some(top)));
    assert_eq!(world.get_component_in_parent(leaf, SCRIPT_KEY), Some(&5));
}

#[test]
fn bundles_spawn_exactly_their_components() {
    let mut world: World<u32> = World::new();
    let id = world.spawn_bundle(vec![(SPRITE_KEY, 3), (SCRIPT_KEY, 9)]);
    let object = world.get(id).unwrap();
    assert_eq!(object.name(), "");
    assert_eq!(object.component_type_ids(), vec![SPRITE_KEY, SCRIPT_KEY]);
    assert!(!object.has_component(TRANSFORM_KEY));
}

#[test]
fn component_queries_visit_holders_in_order() {
    let mut world: World<u32> = World::new();
    let a = world.spawn(object("a").with(SPRITE_KEY, 1));
    world.spawn(object("b"));
    let c = world.spawn(object("c").with(SPRITE_KEY, 5));

    assert_eq!(world.query_components(SPRITE_KEY), vec![&1, &5]);
    let touched = world.query_components_mut(SPRITE_KEY, |hp: u32| hp + 10);
    assert_eq!(touched, vec![a, c]);
    assert_eq!(world.query_components(SPRITE_KEY), vec![&11, &15]);
    assert_eq!(world.query_components(SCRIPT_KEY), Vec::<&u32>::new());
}

#[test]
fn ticks_run_start_first_then_update_and_late_update() {
    let mut world: World<u32> = World::new();
    assert_eq!(world.frame_passes(), vec![LifecyclePass::Start]);
    world.begin_lifecycle();
    world.finish_start();
    assert!(world.has_started());
    assert_eq!(world.frame_passes(), vec![LifecyclePass::Update, LifecyclePass::LateUpdate]);
}

#[test]
fn queued_spawns_fit_while_ids_last() {
    let mut world: World<u32> = World::new();
    world.queue_command(WorldCommand::Spawn(object("x")));
    world.queue_command(WorldCommand::Despawn(7));
    assert!(world.can_apply_commands());
    world.apply_commands();
    assert!(world.can_apply_commands());
}
