//! Discovery, reading and rendering of `AGENTS.md` instruction files.

pub mod discovery;
pub mod discovery_laws;
pub mod discovery_run;
pub mod errors;
pub mod home;
pub mod loaded;
pub mod markdown;
pub mod markdown_laws;
pub mod paths;
pub mod reader;
pub mod reader_laws;
pub mod reader_run;
pub mod stdlib;
pub mod text;
