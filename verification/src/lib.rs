//! Glyphfall: the rules of a game that teaches non-Latin scripts.

pub mod random;
pub mod text;
pub mod keyed;
pub mod model;
pub mod mode;
pub mod progress;
pub mod settings;
pub mod paths;
pub mod catalog;
pub mod draw;
pub mod session;
pub mod daily;
pub mod navigation;
pub mod music;
pub mod wav;
pub mod ui;
pub mod screens;
pub mod order;
pub mod review;
pub mod voices;
pub mod cycles;
