# runa

The core of the Runa game engine as a library verified with Verus: the object
world and its parent/child hierarchy, the deferred command queue, the
developer console, the type and archetype registries, the event bus, the
component byte columns, tile maps, the user-interface node tree, window and
input state, and the editor's file helpers.

Every public function states its behaviour in `requires`/`ensures` over
mathematical models (`Seq`, `Set`, `Map`, views), and Verus proves it. The
properties that span several operations (the hierarchy stays a tree, despawning
removes exactly a subtree, ids are never reused, queued despawns are carried
out, registering again replaces an entry, the log keeps the newest messages)
are proof functions in the modules they concern.

## Layout

- `src/` — the verified library
  - `hierarchy.rs`: the model of the object hierarchy and its lemmas
  - `world.rs`: objects, components, the world and its command queue
  - `console.rs`, `text.rs`: the developer console and the text operations it uses
  - `registry.rs`: component/script types, archetypes, the engine's registries
  - `events.rs`, `blob_vec.rs`, `tilemap.rs`, `ui.rs`, `canvas.rs`, `camera.rs`
  - `window.rs`, `input.rs`: window settings, key state, keyboard routing
  - `assets.rs`, `audio.rs`: textures, fonts, sprites; audio requests
  - `editor.rs`: content-browser and placement helpers, file templates
- `tests/` — tests of the library
- `app/` — a small runner: process-wide state, file reading, the script
  lifecycle loop, floating-point user-interface layout, the RON project format
