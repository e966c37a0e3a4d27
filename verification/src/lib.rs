//! A small blog-page library: it parses key-value metadata documents
//! ("frontmatter") into records, orders them for display, and maps the
//! outcome of rendering to an HTTP response.

pub mod codec;
pub mod ordering;
pub mod pipeline;
pub mod record;

pub use record::Frontmatter;
pub use record::FrontmatterError;
pub use record::RecordView;
