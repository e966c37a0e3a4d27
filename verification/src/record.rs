//! The record type for one post's metadata, its mathematical view, and the
//! error type shared by the collection pipeline.

use vstd::prelude::*;

verus! {

/// Parsed metadata of one post. Every field is mandatory in the on-disk
/// document; a document missing any field does not parse.
#[derive(Debug)]
pub struct Frontmatter {
    pub title: String,
    pub file_name: String,
    pub description: String,
    pub posted: String,
    pub tags: Vec<String>,
    pub author: String,
    pub estimated_reading_time: u32,
    pub order: u32,
}

/// The mathematical value of a `Frontmatter`: text fields as character
/// sequences, counts as unbounded naturals.
pub struct RecordView {
    pub title: Seq<char>,
    pub file_name: Seq<char>,
    pub description: Seq<char>,
    pub posted: Seq<char>,
    pub tags: Seq<Seq<char>>,
    pub author: Seq<char>,
    pub estimated_reading_time: nat,
    pub order: nat,
}

impl View for Frontmatter {
    type V = RecordView;

    open spec fn view(&self) -> RecordView {
        RecordView {
            title: self.title@,
            file_name: self.file_name@,
            description: self.description@,
            posted: self.posted@,
            tags: self.tags.deep_view(),
            author: self.author@,
            estimated_reading_time: self.estimated_reading_time as nat,
            order: self.order as nat,
        }
    }
}

/// A text value can stand in a document line: it holds no quote and no
/// line break, so it fits between the delimiters of its line.
pub open spec fn text_ok(s: Seq<char>) -> bool {
    forall|k: int| 0 <= k < s.len() ==> s[k] != '"' && s[k] != '\n'
}

/// Every tag is a representable text value.
pub open spec fn tags_ok(ts: Seq<Seq<char>>) -> bool {
    forall|k: int| 0 <= k < ts.len() ==> text_ok(#[trigger] ts[k])
}

/// A record that the document format can carry: all text fields are
/// representable and the counters fit the field width.
pub open spec fn valid_record(v: RecordView) -> bool {
    &&& text_ok(v.title)
    &&& text_ok(v.file_name)
    &&& text_ok(v.description)
    &&& text_ok(v.posted)
    &&& tags_ok(v.tags)
    &&& text_ok(v.author)
    &&& v.estimated_reading_time <= u32::MAX
    &&& v.order <= u32::MAX
}

/// Why a collection run failed. Traversal problems and unreadable files
/// are reported by the caller as `IoError`; a document that does not
/// parse is a `TomlError`; anything else is an `OtherError`.
#[derive(Debug)]
pub enum FrontmatterError {
    IoError(String),
    TomlError(String),
    OtherError(String),
}

} // verus!
