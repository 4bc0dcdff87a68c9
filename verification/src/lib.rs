//! Editing Word (`.docx`) documents as plain text: parsing of the main
//! document part into a flat list of paragraphs, rendering them as the text
//! buffer shown in the editor, and writing edits back with minimal changes
//! to the original XML.

pub mod attach;
pub mod cells;
pub mod commands;
pub mod diff;
pub mod edit;
pub mod error;
pub mod limits;
pub mod model;
pub mod numbering;
pub mod package;
pub mod parser;
pub mod png;
pub mod rels;
pub mod render;
pub mod save;
pub mod structure;
pub mod style;
pub mod text;
pub mod upload;
pub mod xml_emit;
pub mod xml_events;

