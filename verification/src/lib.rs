//! A verified parser-combinator toolkit: a backtracking cursor over UTF-8
//! text with exact line/column accounting, leaf parsers and combinators
//! that compose into recursive-descent parsers, and a diagnostic renderer
//! that turns located notes into annotated, multi-line reports.

pub mod combinators;
pub mod display;
pub mod errors;
pub mod leaves;
pub mod location;
pub mod text;
pub mod walker;

pub use combinators::accepts;
pub use combinators::accepts_while;
pub use combinators::alt;
pub use combinators::but_not;
pub use combinators::opt;
pub use combinators::pair;
pub use combinators::triple;
pub use display::ErrorDisplaySettings;
pub use display::ErrorLevel;
pub use display::ErrorRender;
pub use display::LineDisplay;
pub use display::MultiNoteDisplay;
pub use display::Note;
pub use display::NoteDisplay;
pub use display::RegionRender;
pub use errors::ErrorKind;
pub use errors::ParsingError;
pub use leaves::one_of;
pub use leaves::tag;
pub use leaves::take_if;
pub use leaves::take_while;
pub use location::Location;
pub use location::Span;
pub use walker::FileLocationMarker;
pub use walker::FileWalker;
