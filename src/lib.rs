//! A build engine driven by a document of headings, lists and fenced blocks.
//!
//! The library holds the logic: the document parser, the target model, the
//! staleness rule, pattern rules, the schedule and the decisions taken for each
//! scheduled target. Reading the disk and running commands is left to the caller,
//! which hands the library the file states it observed.
pub mod execute;
pub mod files;
pub mod markdown;
pub mod model;
pub mod pattern;
pub mod report;
pub mod schedule;
pub mod stale;
pub mod text;

pub use execute::{exit_if_failed, process_target, Invocation, Step};
pub use files::{outdated, FileStat, FileStates};
pub use markdown::{block_recipe, pattern_heading, push_dependency, split_commands, DocParser, MdEvent, Section};
pub use model::{clone_strings, BuildError, Config, Recipe, Target};
pub use pattern::{derive_dependency, instantiate, Resolved};
pub use report::{
    print_bullet, print_end_fence, print_fence, print_file_target, print_indent, print_list_file_target,
    print_list_target, print_target, print_up_to_date,
};
pub use schedule::contains_str;
pub use text::join_lines;
