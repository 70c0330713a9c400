//! The decision core of a window switcher for X11.
//!
//! Everything the switcher decides stands here as verified code: what the
//! command line and the style sheet mean, in which order windows are offered,
//! which keys do what, where each rectangle, icon and label of the overlay
//! goes, and which icon a window gets. Talking to the X server and to the file
//! system is left to the program around this library.

pub mod collect;
pub mod color;
pub mod config;
pub mod css;
pub mod desktop;
pub mod double;
pub mod geometry;
pub mod icons;
pub mod keys;
pub mod mru;
pub mod overlay;
pub mod palette;
pub mod paths;
pub mod properties;
pub mod raster;
pub mod scene;
pub mod search;
pub mod slots;
pub mod style;
pub mod switcher;
pub mod text;
pub mod textmap;
pub mod theme;
pub mod util;
pub mod values;
