//! Markdown slide presentation core: page splitting, transformation of a
//! document tree into styled sections, footnote bookkeeping and flow layout.
pub mod style;
pub mod text;
pub mod wrap;
pub mod section;
pub mod layout;
pub mod footnotes;
pub mod document;
pub mod page;
pub mod transform;
pub mod configuration;
pub mod code;
pub mod highlight;
pub mod area;
pub mod widget;
pub mod render;
pub mod navigation;
