use vstd::prelude::*;

pub mod assets;
pub mod canvas_settings;
pub mod color;
pub mod desktop;
pub mod document_io;
pub mod editor;
pub mod export;
pub mod freehand;
pub mod history;
pub mod image_import;
pub mod model;
pub mod object_seq;
pub mod shortcuts;
pub mod snapping;
pub mod text;
pub mod text_metrics;

verus! {

} // verus!
