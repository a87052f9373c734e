//! Markdown note pages, their element trees and renderers, and the task-board state machines.

pub mod text;
pub mod element;
pub mod to_md;
pub mod to_html;
pub mod md_parse;
pub mod task;
pub mod page;
pub mod page_parse;
pub mod board;
pub mod client;
pub mod organization;
pub mod note_laws;
pub mod md_laws;
