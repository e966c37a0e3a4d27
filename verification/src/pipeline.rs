//! Collecting records from document texts, and mapping the outcome of a
//! page render to the HTTP response the handler sends.

use vstd::prelude::*;

use crate::codec::parse_document;
use crate::codec::parse_spec;
use crate::record::Frontmatter;
use crate::record::FrontmatterError;

verus! {

/// Parse every collected document, in walk order. The first document that
/// does not parse aborts the whole collection: no partial list comes back.
pub fn collect(docs: &Vec<String>) -> (r: Result<Vec<Frontmatter>, FrontmatterError>)
    ensures
        match r {
            Ok(fms) => fms@.len() == docs@.len() && (forall|i: int|
                0 <= i < docs@.len() ==> parse_spec(docs@[i]@) == Some(#[trigger] fms@[i]@)),
            Err(e) => (exists|i: int|
                0 <= i < docs@.len() && parse_spec(#[trigger] docs@[i]@) is None) && e matches FrontmatterError::TomlError(_),
        },
{
    let mut fms: Vec<Frontmatter> = Vec::new();
    let mut k: usize = 0;
    while k < docs.len()
        invariant
            k <= docs@.len(),
            fms@.len() == k,
            forall|i: int| 0 <= i < k ==> parse_spec(docs@[i]@) == Some(#[trigger] fms@[i]@),
        decreases docs@.len() - k,
    {
        match parse_document(docs[k].as_str()) {
            Ok(f) => {
                fms.push(f);
            },
            Err(e) => {
                return Err(e);
            },
        }
        k += 1;
    }
    Ok(fms)
}

/// What the handler sends back: a status code, a content type, and a body.
pub struct HtmlResponse {
    pub status: u16,
    pub content_type: String,
    pub body: String,
}

/// Map the outcome of the pipeline to the handler's response: the rendered
/// page with status 200, or, on any collection or render failure, status
/// 500 with the fixed error body. The failure's message is for the log,
/// never for the client.
pub fn index_response(outcome: Result<String, String>) -> (r: HtmlResponse)
    ensures
        r.content_type@ == "text/html"@,
        match outcome {
            Ok(html) => r.status == 200 && r.body@ == html@,
            Err(_) => r.status == 500 && r.body@ == "<p>Something went wrong!</p>"@,
        },
{
    match outcome {
        Ok(html) => HtmlResponse {
            status: 200,
            content_type: String::from_str("text/html"),
            body: html,
        },
        Err(_) => HtmlResponse {
            status: 500,
            content_type: String::from_str("text/html"),
            body: String::from_str("<p>Something went wrong!</p>"),
        },
    }
}

} // verus!
