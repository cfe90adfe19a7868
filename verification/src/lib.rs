//! RRMF: a runtime modding framework for Rust programs, built on ptrace.
//!
//! The library holds the decisions of the framework: what is extracted from the debug information of a
//! binary, how hooks are resolved, how a traced process is driven, and what a mod can do to it. Whatever
//! touches the system is done around it.

pub mod arguments;
pub mod binary_unit;
pub mod build_id;
pub mod build_log;
pub mod caches;
pub mod call_laws;
pub mod call_memory_laws;
pub mod calls;
pub mod catalog;
pub mod cli;
pub mod code_laws;
pub mod debug_unit;
pub mod dwarf_reader;
pub mod entries;
pub mod entry_laws;
pub mod extract;
pub mod extract_laws;
pub mod field_laws;
pub mod fields;
pub mod hooks;
pub mod inferior;
pub mod invoke;
pub mod location;
pub mod lookup_laws;
pub mod maps;
pub mod meeting_laws;
pub mod memory_laws;
pub mod meta;
pub mod name_laws;
pub mod names;
pub mod object_file;
pub mod orderly;
pub mod params;
pub mod peek;
pub mod peek_laws;
pub mod reading_laws;
pub mod regs;
pub mod replay;
pub mod report;
pub mod session;
pub mod session_laws;
pub mod statics;
pub mod stepping;
pub mod stopped_laws;
pub mod switches;
pub mod symbols;
pub mod table;
pub mod tally_laws;
pub mod text;
pub mod thread_laws;
pub mod threads;
pub mod trace;
pub mod unit_image;
pub mod unit_laws;
pub mod values;
pub mod walk;
pub mod walk_laws;
pub mod words;
