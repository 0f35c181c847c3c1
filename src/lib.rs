//! Line marks: which lines of a source file have been gone through, kept as a
//! compact list of intervals, with a text codec and coverage roll-ups.

pub mod canonical;
pub mod codec;
pub mod file;
pub mod interval;
pub mod laws;
pub mod marking;
pub mod parse;
pub mod status;
pub mod store;
pub mod unicode;
pub mod view;

pub use codec::{parse_line, parse_spec, write_spec, Directive, ParseError, ALL_MAGIC};
pub use file::{Line, LineKind, Marked};
pub use interval::{FileMarkSpec, MarkModel, SpecType};
pub use marking::{Marking, Spec, Target, Type};
pub use parse::Parser;
pub use status::{directory_status, file_status, FileMarkStatus};
pub use store::{hex_name, spec_file_name};
pub use view::ViewCursor;
