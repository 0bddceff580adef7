use runa::registry::{
    ArchetypeBuilder, ArchetypeKey, Engine, ObjectDefName, RegisteredTypeKind, RegistrationSource, RunaType, RuntimeRegistry,
    TypeRegistry, BUILTIN_COMPONENT_COUNT,
};
use runa::world::{Object, World, TRANSFORM_KEY};

const HEALTH_KEY: u64 = 1000;
const CONTROLLER_KEY: u64 = 1001;
const TEST_SCRIPT_KEY: u64 = 1002;

struct Health;

impl RunaType for Health {
    fn spec_key() -> u64 {
        Self::type_key()
    }
    fn spec_name() -> String {
        Self::runa_type_name()
    }
    fn spec_kind() -> RegisteredTypeKind {
        Self::kind()
    }
    fn type_key() -> u64 {
        HEALTH_KEY
    }
    fn runa_type_name() -> String {
        "typed_archetypes::Health".to_string()
    }
    fn kind() -> RegisteredTypeKind {
        RegisteredTypeKind::Component
    }
}

struct PlayerController;

impl RunaType for PlayerController {
    fn spec_key() -> u64 {
        Self::type_key()
    }
    fn spec_name() -> String {
        Self::runa_type_name()
    }
    fn spec_kind() -> RegisteredTypeKind {
        Self::kind()
    }
    fn type_key() -> u64 {
        CONTROLLER_KEY
    }
    fn runa_type_name() -> String {
        "typed_archetypes::PlayerController".to_string()
    }
    fn kind() -> RegisteredTypeKind {
        RegisteredTypeKind::Script
    }
}

struct PlayerArchetype;

impl ObjectDefName for PlayerArchetype {
    fn key() -> ArchetypeKey {
        ArchetypeKey::new("player".to_string())
    }
}

struct BossEnemy;

impl ObjectDefName for BossEnemy {
    fn key() -> ArchetypeKey {
        ArchetypeKey::new("boss_enemy".to_string())
    }
}

/// Builds an object with a name and, when given, a health component.
struct Template {
    name: &'static str,
    health: Option<u32>,
}

impl Template {
    fn named(name: &'static str) -> Template {
        Template { name, health: None }
    }
}

/// The key of the component that marks an object made from a named definition.
const DEFINITION_KEY: u64 = 2000;

impl ArchetypeBuilder<u32> for Template {
    fn spec_build(&self) -> Object<u32> {
        self.build()
    }
    fn spec_marker(&self, name: String) -> (u64, u32) {
        self.definition_marker(name)
    }
    fn definition_marker(&self, name: String) -> (u64, u32) {
        (DEFINITION_KEY, name.len() as u32)
    }
    fn build(&self) -> Object<u32> {
        let object = Object::new(self.name.to_string(), 0);
        match self.health {
            Some(h) => object.with(HEALTH_KEY, h),
            None => object,
        }
    }
}

#[test]
fn engine_register_generic_registers_user_types() {
    let mut engine: Engine<Template> = Engine::new();
    let health = engine.register::<Health>();
    let controller = engine.register::<PlayerController>();

    assert_eq!(health.kind(), RegisteredTypeKind::Component);
    assert_eq!(controller.kind(), RegisteredTypeKind::Script);
    assert_eq!(health.source(), RegistrationSource::User);
    assert_eq!(controller.source(), RegistrationSource::User);
}

#[test]
fn engine_registers_builtin_types_automatically() {
    let engine: Engine<Template> = Engine::new();
    let transform = engine
        .runtime_registry()
        .types()
        .get_component(TRANSFORM_KEY)
        .expect("Transform should be registered by Engine::new()");

    assert_eq!(transform.kind(), RegisteredTypeKind::Component);
    assert_eq!(transform.source(), RegistrationSource::BuiltIn);
    assert!(!engine.runtime_registry().types().registered_builtin_types().is_empty());
}

#[test]
fn registry_tracks_component_and_script_metadata() {
    let mut registry = TypeRegistry::new();
    let transform = registry.register_component(TRANSFORM_KEY, "runa_core::components::transform::Transform");
    let script = registry.register_script(TEST_SCRIPT_KEY, "registry::tests::TestScript");

    assert_eq!(transform.kind(), RegisteredTypeKind::Component);
    assert_eq!(script.kind(), RegisteredTypeKind::Script);
    assert_eq!(transform.source(), RegistrationSource::User);
    assert_eq!(script.source(), RegistrationSource::User);
    assert!(registry.get_component(TRANSFORM_KEY).is_some());
    assert!(registry.get_script(TEST_SCRIPT_KEY).is_some());
    assert!(registry.get_by_name(transform.name()).is_some());
    assert!(registry.get_by_name(script.name()).is_some());
}

#[test]
fn registry_tracks_builtin_type_origin() {
    let mut registry = TypeRegistry::new();
    let transform = registry.register_builtin_component(TRANSFORM_KEY, "runa_core::components::transform::Transform");

    assert_eq!(transform.kind(), RegisteredTypeKind::Component);
    assert_eq!(transform.source(), RegistrationSource::BuiltIn);
    assert_eq!(registry.registered_builtin_types().len(), 1);
    assert_eq!(registry.registered_user_types().len(), 0);
}

#[test]
fn runtime_registry_spawns_registered_archetype() {
    let mut registry = RuntimeRegistry::new();
    registry.register_archetype_named("test", Template::named("Test"));

    let mut world: World<u32> = World::new();
    let object_id = registry.spawn_archetype_by_name(&mut world, "test");

    assert!(object_id.is_some());
    assert_eq!(world.query(TRANSFORM_KEY).len(), 1);
    assert_eq!(world.get(object_id.unwrap()).unwrap().name(), "Test");
    // Archetypes registered by name carry the definition marker.
    assert_eq!(world.get(object_id.unwrap()).unwrap().get_component(DEFINITION_KEY), Some(&4));
}

#[test]
fn runtime_registry_tracks_typed_archetypes_by_key_and_name() {
    let mut registry = RuntimeRegistry::new();
    let metadata = registry.register_archetype(&ArchetypeKey::new("typed_test".to_string()), Template::named("TypedTest"));
    let mut world: World<u32> = World::new();

    let object_id = registry.spawn_archetype_by_key(&mut world, metadata.key());

    assert!(object_id.is_some());
    assert_eq!(metadata.key().as_str(), "typed_test");
    assert_eq!(metadata.name(), "typed_test");
    assert_eq!(metadata.source(), RegistrationSource::User);
    assert_eq!(world.query(TRANSFORM_KEY).len(), 1);
    assert!(registry.archetypes().contains_name("typed_test"));
}

#[test]
fn typed_archetypes_register_and_spawn() {
    let mut engine = Engine::new();
    let player_metadata = engine.register_archetype(&PlayerArchetype::key(), Template::named("Player"));
    let boss_metadata = engine.register_archetype(&BossEnemy::key(), Template::named("Boss Enemy"));
    let mut world: World<u32> = engine.create_world();

    let registry = engine.runtime_registry();
    let player_id = registry.spawn_archetype_by_key(&mut world, &PlayerArchetype::key()).unwrap();
    let boss_id = registry.spawn_archetype_by_key(&mut world, &BossEnemy::key()).unwrap();
    let player_by_name = registry.spawn_archetype_by_name(&mut world, "player");
    let boss_by_key = registry.spawn_archetype_by_key(&mut world, boss_metadata.key());

    assert_eq!(PlayerArchetype::key().as_str(), "player");
    assert_eq!(BossEnemy::key().as_str(), "boss_enemy");
    assert_eq!(player_metadata.key().as_str(), "player");
    assert_eq!(boss_metadata.name(), "boss_enemy");
    assert!(world.get(player_id).is_some());
    assert!(world.get(boss_id).is_some());
    assert!(player_by_name.is_some());
    assert!(boss_by_key.is_some());
    assert_eq!(world.get(boss_id).unwrap().name(), "Boss Enemy");
    assert_eq!(world.len(), 4);
}

#[test]
fn object_defs_spawn_by_type_and_name_with_component_access() {
    let mut engine = Engine::new();
    let key = ArchetypeKey::new("defined_player".to_string());
    let metadata = engine
        .runtime_registry_mut()
        .register_object_def(&key, Template { name: "Defined Player", health: Some(100) });
    let mut world: World<u32> = engine.create_world();

    let by_type = engine.runtime_registry().spawn_object_def_by_key(&mut world, &key).unwrap();
    let by_name = engine
        .runtime_registry()
        .spawn_object_def_by_name(&mut world, "defined_player")
        .expect("definition should spawn by name");

    assert_eq!(metadata.key().as_str(), "defined_player");
    assert_eq!(metadata.name(), "defined_player");
    assert_eq!(metadata.source(), RegistrationSource::User);
    assert_eq!(world.get(by_type).unwrap().get_component(HEALTH_KEY), Some(&100));
    *world.get_mut(by_name).unwrap().get_component_mut(HEALTH_KEY).unwrap() = 150;
    assert_eq!(world.get(by_name).unwrap().get_component(HEALTH_KEY), Some(&150));
    assert_eq!(world.get(by_type).unwrap().get_component(HEALTH_KEY), Some(&100));
}

#[test]
fn unknown_types_are_not_found() {
    let registry = TypeRegistry::new();
    assert!(registry.get_by_id(3).is_none());
    assert!(registry.get_by_name("nothing").is_none());
    assert!(registry.registered_types().is_empty());
}

#[test]
fn builtin_engine_types_come_in_key_order() {
    let engine: Engine<Template> = Engine::new();
    let types = engine.runtime_registry().types().registered_types();
    assert_eq!(types.len() as u64, BUILTIN_COMPONENT_COUNT);
    for (i, t) in types.iter().enumerate() {
        assert_eq!(t.type_id(), i as u64);
        assert_eq!(t.source(), RegistrationSource::BuiltIn);
    }
    assert_eq!(types[0].name(), "runa_core::components::transform::Transform");
    assert!(engine.runtime_registry().types().registered_user_types().is_empty());
}

#[test]
fn factories_add_components_once() {
    let mut registry: RuntimeRegistry<Template> = RuntimeRegistry::new();
    registry.register_component(5, "plain");
    registry.register_component_factory(6, "built");
    let mut object: Object<u32> = Object::new("Thing".to_string(), 0);

    assert!(!registry.types().has_object_factory(5));
    assert!(registry.types().has_object_factory(6));
    assert!(!registry.add_type_to_object(&mut object, 5, 50));
    assert!(registry.add_type_to_object(&mut object, 6, 60));
    assert_eq!(object.get_component(6), Some(&60));
    assert!(!registry.add_type_to_object(&mut object, 6, 61));
    assert_eq!(object.get_component(6), Some(&60));
    // Registering the key again drops its builder.
    registry.register_component(6, "built");
    assert!(!registry.types().has_object_factory(6));
}

#[test]
fn archetypes_are_found_by_key_and_by_name() {
    let mut registry = RuntimeRegistry::new();
    let meta = registry.register_archetype_named("crate", Template::named("Crate"));
    let mut world: World<u32> = World::new();
    assert_eq!(meta.key().as_str(), "crate");
    assert!(registry.archetypes().contains_key(&ArchetypeKey::new("crate".to_string())));
    assert!(registry.archetypes().metadata_by_name("crate").is_some());
    assert!(registry.spawn_archetype_by_name(&mut world, "barrel").is_none());
    assert!(registry.spawn_archetype_by_key(&mut world, &ArchetypeKey::new("barrel".to_string())).is_none());
    assert_eq!(world.len(), 0);
    assert_eq!(registry.archetypes().registered_user_archetypes().len(), 1);
    assert_eq!(registry.archetypes().registered_builtin_archetypes().len(), 0);
    assert_eq!(registry.archetypes().metadata().len(), 1);
}
