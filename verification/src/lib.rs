//! Extract plain text from Wikipedia article HTML.
//!
//! The HTML is parsed with tree-sitter; the syntax tree is walked to collect one
//! [`TextSegment`] per paragraph, skipping navigation, infoboxes, references and other
//! non-prose content, and tracking the section headings each paragraph stands under.
//! [`ArticleFormat`] renders the segments as plain text, Markdown, or a section tree.

pub mod formatters;
pub mod html;
pub mod outline;
pub mod page;
pub mod request;
pub mod segment;
pub mod syntax;
pub mod text;

pub use formatters::ArticleFormat;
pub use outline::{ArticleTree, Section};
pub use page::{WikiError, WikiPage};
pub use segment::{InlineNode, TextSegment};
