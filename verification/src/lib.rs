use vstd::prelude::*;

pub mod text;
pub mod console;
pub mod hierarchy;
pub mod world;
pub mod registry;
pub mod window;
pub mod events;
pub mod blob_vec;
pub mod assets;
pub mod editor;
pub mod audio;
pub mod ui;
pub mod canvas;
pub mod camera;
pub mod tilemap;
pub mod input;
