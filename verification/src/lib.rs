//! Locating natural-language text inside reassembled documentation buffers.
//!
//! A checkable chunk owns a text buffer stitched together from fragments of a
//! source file; every fragment remembers the file span it came from.  The
//! library re-derives exact source spans for arbitrary sub-ranges of the
//! buffer, offers a markup-overlay translation layer, a tokenizer, a chain of
//! token-normalization quirks, and a dictionary-driven checker that turns
//! misses into suggestions carrying their resolved source spans.

pub mod args;
pub mod checker;
pub mod chunk;
pub mod config;
pub mod overlay;
pub mod provenance;
pub mod quirks;
pub mod span;
pub mod suggestion;
pub mod tokenize;
pub mod util;

pub use args::Args;
pub use args::ExitCode;
pub use args::parse_args;
pub use checker::Dictionary;
pub use checker::HunspellChecker;
pub use chunk::CheckableChunk;
pub use chunk::ContentOrigin;
pub use config::Config;
pub use overlay::Overlay;
pub use quirks::Quirk;
pub use quirks::Quirks;
pub use span::LineColumn;
pub use span::Range;
pub use span::Span;
pub use suggestion::Detector;
pub use suggestion::Documentation;
pub use suggestion::Suggestion;
pub use suggestion::SuggestionSet;
