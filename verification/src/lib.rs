//! Source-text emission: percent-style templates rendered into
//! column-limited, indented text.
use vstd::prelude::*;

pub mod class_name;
pub mod code_block;
pub mod code_writer;
pub mod file_spec;
pub mod format;
pub mod import;
pub mod line_wrapper;
pub mod member_name;
pub mod method_spec;
pub mod modifier;
pub mod name_allocator;
pub mod operator;
pub mod sorting;
pub mod text;
pub mod type_ref;
pub mod type_spec;

verus! {

/// The indent unit that is used where none is given: four spaces.
pub const DEFAULT_INDENT: &'static str = "    ";

} // verus!
