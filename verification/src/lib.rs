//! Tetrachrome: packing up to four grayscale texture maps into the RGBA
//! channels of one texture, by the conventions of game engines.

pub mod text;
pub mod model;
pub mod naming;
pub mod presets;
pub mod lang;
pub mod paths;
pub mod source;
pub mod settings;
pub mod batch;
pub mod state;
pub mod icons;
pub mod size;
pub mod session;
pub mod loading;
pub mod batching;
pub mod export;
