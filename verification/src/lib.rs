//! A small Markdown document model for note files: a block-level parser that
//! turns text into a sequence of typed blocks (headings, paragraphs,
//! checklists, unordered and ordered lists), a renderer that serializes the
//! blocks back to text, and document transforms used by note-taking commands.

pub mod checklist;
pub mod classify;
pub mod config;
pub mod heading;
pub mod lines;
pub mod markdown;
pub mod ordered_list;
pub mod paragraph;
pub mod parse;
pub mod render;
pub mod roundtrip;
pub mod scan;
pub mod section;
pub mod sections;
pub mod unordered_list;
