use runa::assets::{load_image, FontAsset, Handle, SpriteRenderer, TextureAsset};
use runa::audio::{finish_play, plan_playback, start_playback, AudioPlayback, SoundId};
use runa::blob_vec::{BlobVec, ComponentInfo};
use runa::editor::{
    classify_asset_kind, file_extension, is_ignored_path, mesh_primitive_label, object_script_template,
    short_type_name, to_ascii_lowercase, wgsl_shader_template, AssetKind, BuiltinMeshPrimitive,
};
use runa::events::EventBus;
use runa::window::{
    center_window, centered_window_position, initialize_window_state, is_fullscreen, move_window_by,
    screen_center_position, set_cursor_mode, set_window_size, set_window_title, toggle_fullscreen,
    window_size, window_title, RunaWindowConfig, WindowRequest, WindowState,
};

#[test]
fn window_state_defaults_and_updates() {
    let mut state = WindowState::default();
    assert_eq!(window_title(&state), "Runa Game");
    assert!(!is_fullscreen(&state));
    assert_eq!(window_size(&state), (1280, 720));
    initialize_window_state(&mut state, "Game".to_string(), true, (800, 600));
    assert_eq!(window_title(&state), "Game");
    assert!(is_fullscreen(&state));
    assert_eq!(window_size(&state), (800, 600));
    assert_eq!(set_window_title(&mut state, "Other".to_string()), WindowRequest::SetTitle("Other".to_string()));
    assert_eq!(state.title, "Other");
}

#[test]
fn toggling_fullscreen_twice_restores_it() {
    let mut state = WindowState::default();
    assert_eq!(toggle_fullscreen(&mut state), WindowRequest::SetFullscreen(true));
    assert_eq!(toggle_fullscreen(&mut state), WindowRequest::SetFullscreen(false));
    assert!(!state.fullscreen);
}

#[test]
fn window_size_is_at_least_one() {
    let mut state = WindowState::default();
    assert_eq!(set_window_size(&mut state, 0, 0), WindowRequest::SetSize(1, 1));
    assert_eq!(state.size, (1, 1));
    assert_eq!(set_window_size(&mut state, 640, 0), WindowRequest::SetSize(640, 1));
}

#[test]
fn window_geometry() {
    assert_eq!(screen_center_position((0, 0), (1920, 1080)), (960, 540));
    assert_eq!(screen_center_position((i32::MAX - 10, 5), (1920, 1080)), (i32::MAX, 545));
    assert_eq!(centered_window_position((100, 0), (1920, 1080), (1280, 720)), (420, 180));
    // A window larger than its monitor starts to the left of it; odd
    // differences round toward zero.
    assert_eq!(centered_window_position((0, 0), (100, 100), (301, 100)), (-100, 0));
    assert_eq!(center_window((0, 0), (1920, 1080), (1280, 720)), WindowRequest::SetPosition(320, 180));
    assert_eq!(move_window_by((i32::MIN + 1, 0), -5, 7), WindowRequest::SetPosition(i32::MIN, 7));
    assert_eq!(
        set_cursor_mode(false, true),
        vec![WindowRequest::ShowCursor(false), WindowRequest::LockCursor(true)]
    );
}

#[test]
fn window_config_defaults() {
    let c = RunaWindowConfig::default();
    assert_eq!(c.title, "Runa Game");
    assert_eq!((c.width, c.height), (1280, 720));
    assert!(!c.fullscreen && c.vsync && !c.show_fps_in_title);
    assert!(c.window_icon.is_none());
}

#[test]
fn events_reach_their_type_listeners_in_order() {
    let mut bus: EventBus<&str> = EventBus::new();
    let a = bus.subscribe(1);
    let b = bus.subscribe(2);
    let c = bus.subscribe(1);
    bus.emit(1, "first");
    bus.emit(2, "second");
    bus.emit(3, "nobody");
    let out = bus.process();
    assert_eq!(out, vec![("first", vec![a, c]), ("second", vec![b]), ("nobody", vec![])]);
    assert!(bus.process().is_empty());
}

#[test]
fn blob_vec_keeps_values_back_to_back() {
    let info = ComponentInfo::of::<u32>(9);
    assert_eq!((info.type_id, info.size, info.align), (9, 4, 4));
    assert!(!info.needs_drop);
    let mut blob = BlobVec::new_with_info(info);
    blob.push(&1u32.to_le_bytes());
    blob.push(&2u32.to_le_bytes());
    blob.push(&3u32.to_le_bytes());
    assert_eq!(blob.len(), 3);
    assert_eq!(blob.as_ptr().len(), 12);
    assert_eq!(blob.get(1), 2u32.to_le_bytes().to_vec());
    let removed = blob.swap_remove(0);
    assert_eq!(removed, 1u32.to_le_bytes().to_vec());
    assert_eq!(blob.len(), 2);
    assert_eq!(blob.get(0), 3u32.to_le_bytes().to_vec());
    assert_eq!(blob.get(1), 2u32.to_le_bytes().to_vec());
    blob.clear();
    assert_eq!(blob.len(), 0);
    assert_eq!(blob.info().type_id, 9);
}

#[test]
fn blob_vec_counts_values_of_no_size() {
    let mut blob = BlobVec::new_with_info(ComponentInfo::of::<()>(1));
    blob.push(&[]);
    blob.push(&[]);
    assert_eq!(blob.len(), 2);
    assert_eq!(blob.swap_remove(1), Vec::<u8>::new());
    assert_eq!(blob.len(), 1);
    assert!(ComponentInfo::of::<String>(2).needs_drop);
}

fn png_bytes(width: u32, height: u32) -> Vec<u8> {
    let img = image::RgbaImage::from_pixel(width, height, image::Rgba([10, 20, 30, 255]));
    let mut out = std::io::Cursor::new(Vec::new());
    img.write_to(&mut out, image::ImageFormat::Png).unwrap();
    out.into_inner()
}

#[test]
fn images_decode_to_rgba() {
    let handle = load_image(&png_bytes(2, 3), "assets/tile.png".to_string()).unwrap();
    assert_eq!((handle.inner.width, handle.inner.height), (2, 3));
    assert_eq!(handle.inner.pixels.len(), 2 * 3 * 4);
    assert_eq!(&handle.inner.pixels[0..4], &[10, 20, 30, 255]);
    assert_eq!(handle.inner.path, "assets/tile.png");
    assert!(TextureAsset::decode(b"not an image", String::new()).is_err());
}

#[test]
fn sprites_remember_their_texture_path() {
    let texture = load_image(&png_bytes(1, 1), "a.png".to_string()).unwrap();
    let sprite = SpriteRenderer::new(Some(texture.share()));
    assert_eq!(sprite.texture_path.as_deref(), Some("a.png"));
    assert_eq!(sprite.get_texture_handle().inner.width, 1);
    let empty = SpriteRenderer::default();
    assert!(empty.texture.is_none() && empty.texture_path.is_none());
    let mut s = SpriteRenderer::new(None);
    assert!(s.texture_path.is_none());
    s.set_texture(Some(texture), Some("b.png".to_string()));
    assert_eq!(s.texture_path.as_deref(), Some("b.png"));
}

#[test]
fn fonts_hold_a_texture_per_character() {
    let mut font = FontAsset::load_default();
    assert_eq!(font.character_size, (8, 8));
    assert!(font.get_character_texture('a').is_none());
    let glyph = Handle::new(TextureAsset { width: 8, height: 8, pixels: vec![0; 256], path: String::new() });
    font.set_character_texture('a', glyph);
    assert_eq!(font.get_character_texture('a').unwrap().inner.width, 8);
    assert!(font.get_character_texture('b').is_none());
}

#[test]
fn audio_requests_become_stops_and_plays() {
    let mut p = AudioPlayback {
        has_asset: true,
        play_on_awake: true,
        play_requested: false,
        stop_requested: false,
        playing: false,
        sound_id: None,
    };
    start_playback(&mut p);
    assert!(p.play_requested);
    let plan = plan_playback(&mut p);
    assert!(plan.play && plan.stop.is_empty());
    finish_play(&mut p, Some(SoundId(4)));
    assert_eq!(p.sound_id, Some(SoundId(4)));
    assert!(p.playing);
    // Stop and replay in one frame: the old sound stops once.
    p.stop_requested = true;
    p.play_requested = true;
    let plan = plan_playback(&mut p);
    assert_eq!(plan.stop, vec![SoundId(4)]);
    assert!(plan.play);
    assert!(!p.playing && p.sound_id.is_none());
    finish_play(&mut p, None);
    assert!(!p.playing);
}

#[test]
fn content_browser_kinds_and_hidden_entries() {
    assert_eq!(classify_asset_kind(true, "src"), AssetKind::Directory);
    assert_eq!(classify_asset_kind(false, "main.RS"), AssetKind::RustFile);
    assert_eq!(classify_asset_kind(false, "hero.Jpeg"), AssetKind::ImageFile);
    assert_eq!(classify_asset_kind(false, "theme.ogg"), AssetKind::AudioFile);
    assert_eq!(classify_asset_kind(false, "water.wgsl"), AssetKind::ShaderFile);
    assert_eq!(classify_asset_kind(false, ".png"), AssetKind::GenericFile);
    assert_eq!(classify_asset_kind(false, "README"), AssetKind::GenericFile);
    assert_eq!(file_extension("archive.tar.gz"), Some("gz".to_string()));
    assert_eq!(file_extension("trailing."), Some(String::new()));
    assert_eq!(file_extension(".."), None);
    assert_eq!(to_ascii_lowercase("MiXeD-Ä"), "mixed-Ä");
    assert!(is_ignored_path(Some("target"), true));
    assert!(is_ignored_path(Some(".git"), true));
    assert!(is_ignored_path(Some(".hidden"), false));
    assert!(!is_ignored_path(Some(".hidden"), true));
    assert!(!is_ignored_path(Some("assets"), false));
    assert!(!is_ignored_path(None, false));
}

#[test]
fn type_names_and_templates() {
    assert_eq!(short_type_name("runa_core::components::transform::Transform"), "Transform");
    assert_eq!(short_type_name("Plain"), "Plain");
    assert_eq!(short_type_name("a:::b"), "b");
    let t = object_script_template("Mover");
    assert!(t.contains("pub struct Mover {"));
    assert!(t.contains("impl Script for Mover {"));
    assert!(t.starts_with("use runa_engine::{"));
    assert!(wgsl_shader_template().contains("fn fs_main"));
    assert_eq!(mesh_primitive_label(BuiltinMeshPrimitive::Pyramid), "Pyramid");
}

use runa::editor::{
    default_placeable_descriptors, latest_stamp, merge_placeable_object_records, PlaceableObjectDescriptor,
    PlaceableObjectRecord,
};

fn record(id: &str, name: &str, category: &str, object: u32) -> PlaceableObjectRecord<u32> {
    PlaceableObjectRecord {
        descriptor: PlaceableObjectDescriptor { id: id.to_string(), name: name.to_string(), category: category.to_string() },
        object,
    }
}

#[test]
fn placeable_records_merge_by_id_and_sort() {
    let defaults = vec![record("empty", "Empty", "Basic", 1), record("sprite", "Sprite", "2D", 2), record("cube", "Cube", "Basic", 3)];
    let project = vec![
        record("player", "Player", "Gameplay", 9),
        record("cube", "Big Cube", "Basic", 4),
        record("enemy", "Enemy", "Gameplay", 5),
    ];
    let merged = merge_placeable_object_records(defaults, project);
    let listed: Vec<(String, String, u32)> = merged
        .iter()
        .map(|r| (r.descriptor.category.clone(), r.descriptor.name.clone(), r.object))
        .collect();
    assert_eq!(
        listed,
        vec![
            ("2D".to_string(), "Sprite".to_string(), 2),
            ("Basic".to_string(), "Big Cube".to_string(), 4),
            ("Basic".to_string(), "Empty".to_string(), 1),
            ("Gameplay".to_string(), "Enemy".to_string(), 5),
        ]
    );
    let ids: Vec<String> = default_placeable_descriptors().into_iter().map(|d| d.id).collect();
    assert_eq!(ids, vec!["empty", "camera", "cube", "floor", "sprite", "tilemap", "audio-source"]);
}

#[test]
fn the_latest_stamp_wins() {
    assert_eq!(latest_stamp(Some(5), Some(3)), Some(5));
    assert_eq!(latest_stamp(Some(2), Some(3)), Some(3));
    assert_eq!(latest_stamp(None, Some(3)), Some(3));
    assert_eq!(latest_stamp(Some(4), None), Some(4));
    assert_eq!(latest_stamp(None, None), None);
}

use runa::ui::{CanvasSpace, UiNodeId, UiRenderer};

#[test]
fn ui_nodes_are_found_depth_first() {
    let mut ui: UiRenderer<&str> = UiRenderer::new(CanvasSpace::Screen, "root-kind");
    let root = ui.root();
    assert_eq!(root, UiNodeId(0));
    let panel = ui.add_node(root, "panel");
    let button = ui.add_node(panel, "button");
    let label = ui.add_node(root, "label");
    assert_eq!((panel, button, label), (UiNodeId(1), UiNodeId(2), UiNodeId(3)));
    assert!(ui.set_name(button, "ok".to_string()));
    assert!(ui.set_name(label, "ok".to_string()));
    assert!(!ui.set_name(UiNodeId(9), "x".to_string()));
    assert_eq!(ui.find_by_name("ok"), Some(button));
    assert_eq!(ui.find_all_by_name("ok"), vec![button, label]);
    assert_eq!(ui.find_by_name("root"), Some(root));
    assert_eq!(ui.find_by_name("missing"), None);
    assert_eq!(ui.node(panel).unwrap().children(), &vec![button]);
    assert_eq!(ui.node(button).unwrap().parent(), Some(panel));
    assert_eq!(ui.kind(label), Some(&"label"));
    *ui.node_mut(label).unwrap() = "text";
    assert_eq!(ui.kind(label), Some(&"text"));
    assert!(ui.dirty_layout());
    ui.set_dirty_layout(false);
    ui.clear("fresh-root");
    assert_eq!(ui.len(), 1);
    assert!(ui.node(panel).is_none());
    assert_eq!(ui.kind(root), Some(&"fresh-root"));
}

use runa::tilemap::{Tilemap, TilemapLayer};

#[test]
fn tilemaps_address_cells_by_world_coordinates() {
    let mut map: Tilemap<char> = Tilemap::centered(4, 3, (16, 16));
    assert_eq!(map.offset, (-2, -1));
    map.add_layer(TilemapLayer::new("ground".to_string(), 4, 3, '.'));
    map.add_layer(TilemapLayer::new("decor".to_string(), 4, 3, ' '));
    assert_eq!(map.get_tile(-2, -1), Some(&'.'));
    map.set_tile(1, 1, '#');
    assert_eq!(map.get_tile(1, 1), Some(&'#'));
    assert_eq!(map.layers[1].tiles[2 * 4 + 3], '#');
    // Off the map, nothing is read or written.
    map.set_tile(2, 0, 'x');
    map.set_tile(-3, 0, 'x');
    assert_eq!(map.get_tile(2, 0), None);
    assert_eq!(map.get_tile(-3, 0), None);
    assert!(map.layers[0].tiles.iter().all(|&t| t != 'x'));
    let empty: Tilemap<char> = Tilemap::centered(5, 5, (1, 1));
    assert_eq!(empty.offset, (-2, -2));
    assert_eq!(empty.get_tile(0, 0), None);
}

#[test]
fn tilemap_layers_guard_their_cells() {
    let mut layer = TilemapLayer::new("l".to_string(), 2, 2, 0u8);
    assert_eq!(layer.tiles.len(), 4);
    layer.set_tile(1, 1, 2, 7);
    assert_eq!(layer.get_tile(1, 1, 2), Some(&7));
    layer.set_tile(0, 5, 2, 9);
    assert_eq!(layer.get_tile(0, 5, 2), None);
    assert!(layer.visible);
}

use runa::editor::{decimal_string, unique_directory_path, unique_file_path};

#[test]
fn numbers_are_written_in_decimal() {
    assert_eq!(decimal_string(0), "0");
    assert_eq!(decimal_string(7), "7");
    assert_eq!(decimal_string(120), "120");
    assert_eq!(decimal_string(9081726354), "9081726354");
}

#[test]
fn new_files_and_folders_get_free_names() {
    let none: Vec<String> = vec![];
    assert_eq!(unique_file_path(&none, "script", "rs"), "script.rs");
    let taken = vec!["script.rs".to_string(), "script1.rs".to_string(), "script3.rs".to_string()];
    assert_eq!(unique_file_path(&taken, "script", "rs"), "script2.rs");
    let folders = vec!["NewFolder".to_string(), "NewFolder1".to_string()];
    assert_eq!(unique_directory_path(&folders, "NewFolder"), "NewFolder2");
    assert_eq!(unique_directory_path(&none, "NewFolder"), "NewFolder");
}

use runa::editor::{collect_directory_entries, DirectoryItem};

fn item(name: &str, is_dir: bool) -> DirectoryItem {
    DirectoryItem {
        name: name.to_string(),
        relative_path: format!("assets/{name}"),
        full_path: format!("/p/assets/{name}"),
        is_dir,
    }
}

#[test]
fn directory_entries_put_folders_first_then_names() {
    let items = vec![
        item("b.png", false),
        item("zeta", true),
        item(".hidden", false),
        item("a.rs", false),
        item("target", true),
        item("alpha", true),
    ];
    let entries = collect_directory_entries(items, false);
    let names: Vec<&str> = entries.iter().map(|e| e.name.as_str()).collect();
    assert_eq!(names, vec!["alpha", "zeta", "a.rs", "b.png"]);
    assert_eq!(entries[0].kind, AssetKind::Directory);
    assert_eq!(entries[2].kind, AssetKind::RustFile);
    assert_eq!(entries[3].kind, AssetKind::ImageFile);
    assert_eq!(entries[3].relative_path, "assets/b.png");

    let shown = collect_directory_entries(vec![item(".env", false), item("x", false)], true);
    let names: Vec<&str> = shown.iter().map(|e| e.name.as_str()).collect();
    assert_eq!(names, vec![".env", "x"]);
}

use runa::assets::{decode_window_icon, load_window_icons};

#[test]
fn window_icons_must_be_square_and_of_a_standard_size() {
    let (side, pixels) = decode_window_icon(&png_bytes(16, 16), "icon.png").unwrap();
    assert_eq!(side, 16);
    assert_eq!(pixels.len(), 16 * 16 * 4);
    assert_eq!(
        decode_window_icon(&png_bytes(16, 32), "wide.png"),
        Err("Icon must be square, got 16x32".to_string())
    );
    assert_eq!(
        decode_window_icon(&png_bytes(20, 20), "odd.png"),
        Err("Icon size 20x20 is not standard. Recommended: 16, 32, 64, 128, 256, 512".to_string())
    );
    let broken = decode_window_icon(b"not an image", "broken.png").unwrap_err();
    assert!(broken.starts_with("Failed to load icon 'broken.png': "));
}

#[test]
fn window_icons_skip_bad_files_and_fail_when_none_load() {
    let files = vec![
        (png_bytes(32, 32), "a.png".to_string()),
        (b"junk".to_vec(), "b.png".to_string()),
        (png_bytes(48, 48), "c.png".to_string()),
    ];
    let mut skipped = Vec::new();
    let icons = load_window_icons(&files, &mut skipped).unwrap();
    assert_eq!(icons.iter().map(|i| i.0).collect::<Vec<u32>>(), vec![32, 48]);
    assert_eq!(skipped.len(), 1);
    assert!(skipped[0].starts_with("Skipping icon 'b.png': "));

    let mut skipped = Vec::new();
    let none = load_window_icons(&vec![(png_bytes(3, 3), "t.png".to_string())], &mut skipped);
    assert_eq!(none, Err("No valid icons loaded".to_string()));
    assert_eq!(skipped.len(), 1);
}

#[test]
fn images_of_other_formats_decode_too() {
    let img = image::RgbaImage::from_pixel(2, 2, image::Rgba([1, 2, 3, 255]));
    let mut out = std::io::Cursor::new(Vec::new());
    img.write_to(&mut out, image::ImageFormat::Bmp).unwrap();
    let handle = load_image(&out.into_inner(), "tile.bmp".to_string()).unwrap();
    assert_eq!((handle.inner.width, handle.inner.height), (2, 2));
    assert_eq!(&handle.inner.pixels[0..4], &[1, 2, 3, 255]);
}

#[test]
fn the_path_extension_picks_the_decoder() {
    assert!(load_image(&png_bytes(1, 1), "dir.v2/Tile.PNG".to_string()).is_ok());
    assert!(load_image(&png_bytes(1, 1), "tile.jpg".to_string()).is_err());
    assert!(load_image(&png_bytes(1, 1), "tile".to_string()).is_err());
    assert!(decode_window_icon(&png_bytes(16, 16), "icons/icon.txt").unwrap_err().starts_with("Failed to load icon 'icons/icon.txt': "));
}

#[test]
fn checked_icons_keep_their_pixels() {
    assert_eq!(runa::assets::check_icon(32, 32, vec![1, 2, 3]), Ok((32, vec![1, 2, 3])));
    assert_eq!(runa::assets::check_icon(30, 30, vec![]), Err("Icon size 30x30 is not standard. Recommended: 16, 32, 64, 128, 256, 512".to_string()));
}

use runa::editor::{addable_type_entries, AddTypeEntry, ProjectTypeRecord};
use runa::registry::{RegisteredTypeKind, RegistrationSource, TypeRegistry};

#[test]
fn add_component_menu_lists_what_can_still_be_added() {
    let mut registry = TypeRegistry::new();
    registry.register_builtin_component(0, "runa_core::components::transform::Transform");
    registry.register_component_named_factory(5, "game::Zebra");
    registry.register_component(6, "game::Apple");
    registry.register_component(7, "runa_core::components::tilemap::Tilemap");
    registry.register_script(8, "game::Mover");
    let object: runa::world::Object<u32> = runa::world::Object::new("Thing".to_string(), 0);
    let project = vec![
        ProjectTypeRecord { kind: RegisteredTypeKind::Component, source: RegistrationSource::User, full_name: "proj::Mango".to_string() },
        ProjectTypeRecord { kind: RegisteredTypeKind::Component, source: RegistrationSource::User, full_name: "proj::Apple".to_string() },
        ProjectTypeRecord { kind: RegisteredTypeKind::Component, source: RegistrationSource::User, full_name: "proj::Kiwi".to_string() },
        ProjectTypeRecord { kind: RegisteredTypeKind::Script, source: RegistrationSource::User, full_name: "proj::Walker".to_string() },
    ];
    let stubs = vec![(RegisteredTypeKind::Component, "proj::Kiwi".to_string())];

    let lines = addable_type_entries(&registry, &object, RegisteredTypeKind::Component, 7, &project, &stubs);
    assert_eq!(
        lines,
        vec![
            AddTypeEntry { key: Some(6), name: "Apple".to_string(), addable: false, project_index: None },
            AddTypeEntry { key: None, name: "Mango".to_string(), addable: true, project_index: Some(0) },
            AddTypeEntry { key: Some(5), name: "Zebra".to_string(), addable: true, project_index: None },
        ]
    );
}

#[test]
fn only_shown_ui_nodes_are_drawn() {
    let mut ui: UiRenderer<&str> = UiRenderer::new(CanvasSpace::Screen, "root");
    let a = ui.add_node(ui.root(), "a");
    let b = ui.add_node(ui.root(), "b");
    assert_eq!(ui.visible_nodes(), vec![UiNodeId(0), a, b]);
    assert!(ui.set_visible(a, false));
    assert!(!ui.set_visible(UiNodeId(7), false));
    assert_eq!(ui.visible_nodes(), vec![UiNodeId(0), b]);
    assert!(!ui.node(a).unwrap().visible());
}
