//! File-name index and search for NTFS volumes, with the decision logic of the
//! desktop tool around it.

pub mod ascii;
pub mod catalog;
pub mod category;
pub mod characters;
pub mod codec;
pub mod config;
pub mod dialog;
pub mod drives;
pub mod events;
pub mod explorer;
pub mod geometry;
pub mod icons;
pub mod index;
pub mod listview;
pub mod locate;
pub mod messages;
pub mod model;
pub mod pattern;
pub mod persist;
pub mod popup;
pub mod rank;
pub mod search;
pub mod searchwin;
pub mod settings_form;
pub mod text;
pub mod theme;
pub mod usn;
pub mod wide;
