//! Comment-tolerant scanner and format-preserving editor for the
//! `sExtOptions` object embedded in theme configuration documents.
//!
//! A document is a byte string. All structure the library looks at is ASCII;
//! every other byte is carried through untouched.
//!
//! Reading: [`find_ext_options_block`] locates the block,
//! [`parse_portal_frag_from_text`] lists its `portal_frag_` entries, repeated
//! keys and all, and [`parse_mappings`] labels each entry by how often its
//! identifiers occur.
//!
//! Writing: [`insert_entries`], [`replace_mappings_in_file`] and
//! [`remove_mapping_from_file`] each return a new document in which nothing
//! outside the block has changed.
//!
//! What holds of these operations whatever the document is proved in
//! [`laws`]: the span of a block balances its braces, every operation leaves
//! the bytes outside the block alone, and the scanner reads back what an
//! insert or a replacement wrote.

pub mod bytes;
pub mod classify;
pub mod cleaned;
pub mod emptied;
pub mod entry;
pub mod error;
pub mod insert;
pub mod kept;
pub mod laws;
pub mod layout;
pub mod lined;
pub mod lines;
pub mod locate;
pub mod order;
pub mod quoted;
pub mod remarks;
pub mod remove;
pub mod replace;
pub mod rescan;
pub mod rows;
pub mod runs;
pub mod scan;
pub mod space;
pub mod table;

pub use crate::classify::{classify_entries, parse_mappings};
pub use crate::entry::{
    extract_gw_id, find_string_end, parse_portal_entry_at, parse_portal_frag_from_text,
    MappingEntry, Status,
};
pub use crate::error::EditError;
pub use crate::insert::{insert_entries, insert_new_entries, plan_insert, InsertPlan};
pub use crate::layout::{detect_base_indent, detect_line_ending, format_entry, MappingInput};
pub use crate::locate::find_ext_options_block;
pub use crate::remove::{remove_mapping_from_file, remove_mappings_from_file, BatchRemoval};
pub use crate::replace::replace_mappings_in_file;
pub use crate::scan::{scan_step, Mode, ScanState, Step, Token};
pub use crate::space::trim_trailing_whitespace_start;
pub use crate::table::MappingTable;
