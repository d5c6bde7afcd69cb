//! The request side of the search service: query and page parameters,
//! document names, and the errors answered to a client.

use vstd::prelude::*;

use crate::paths::{
    components, ext_of, extension, file_name, lemma_absolute_components, path_component_count,
    path_extension, path_is_absolute, path_join, path_set_extension, path_starts_with, stem_of,
    PathComponent,
};
use crate::text::{chars_eq, chars_of, string_from_chars};

verus! {

/// Why a request failed.
#[derive(Debug)]
pub enum ApiError {
    /// The document does not exist under the documentation root.
    NotFound,
    /// Something failed on the server's side.
    InternalServerError(String),
    /// The request itself is malformed.
    BadRequest(String),
}

/// The HTTP status code answered for an error.
pub open spec fn status_of(e: ApiError) -> u16 {
    match e {
        ApiError::NotFound => 404,
        ApiError::InternalServerError(_) => 500,
        ApiError::BadRequest(_) => 400,
    }
}

/// The message answered with an error.
pub open spec fn message_of(e: ApiError) -> Seq<char> {
    match e {
        ApiError::NotFound => "not found"@,
        ApiError::InternalServerError(m) => m@,
        ApiError::BadRequest(m) => m@,
    }
}

impl ApiError {
    /// The HTTP status code of the response: 404, 500 or 400.
    pub fn status_code(&self) -> (r: u16)
        ensures
            r == status_of(*self),
    {
        match self {
            ApiError::NotFound => 404,
            ApiError::InternalServerError(_) => 500,
            ApiError::BadRequest(_) => 400,
        }
    }

    /// The text of the response: `"not found"`, or the error's own message.
    pub fn message(&self) -> (r: String)
        ensures
            r@ == message_of(*self),
    {
        match self {
            ApiError::NotFound => string_from_chars(chars_of("not found").as_slice()),
            ApiError::InternalServerError(m) => m.clone(),
            ApiError::BadRequest(m) => m.clone(),
        }
    }
}

/// The number of search results answered when a query names no limit.
pub const DEFAULT_LIMIT: usize = 3;

/// A search request.
#[derive(Debug)]
pub struct QueryParams {
    /// The natural language query string to search for in the ccTalk docs.
    pub query: String,
    /// The maximum number of results to return. Defaults to 3.
    pub limit: Option<usize>,
}

impl QueryParams {
    /// The maximum number of results to return.
    pub fn limit_or_default(&self) -> (r: usize)
        ensures
            r == match self.limit {
                Some(n) => n,
                None => DEFAULT_LIMIT,
            },
    {
        match self.limit {
            Some(n) => n,
            None => DEFAULT_LIMIT,
        }
    }
}

/// A request for the raw text of some pages of a document.
#[derive(Debug)]
pub struct DocumentParams {
    /// The path to the document to extract pages from.
    /// Can be without the `.pdf` extension.
    pub document: String,
    /// The starting page index (1-based).
    pub page_start: usize,
    /// The number of pages to extract.
    /// If not specified, defaults to 1.
    pub count: Option<usize>,
}

impl DocumentParams {
    /// The pages asked for, as the number of pages to skip from the start of
    /// the document and the number of pages to take after them.
    pub fn page_window(&self) -> (r: (usize, usize))
        requires
            self.page_start >= 1,
        ensures
            r.0 == self.page_start - 1,
            r.1 == match self.count {
                Some(n) => n,
                None => 1,
            },
    {
        let take = match self.count {
            Some(n) => n,
            None => 1,
        };
        (self.page_start - 1, take)
    }
}

/// The components of the document name asked for, once a name without an
/// extension has been given the extension `pdf`.
pub open spec fn with_pdf_extension(requested: Seq<char>) -> Seq<PathComponent> {
    match file_name(requested) {
        Some(n) => if extension(requested) is None {
            components(requested).drop_last().push(PathComponent::Normal(stem_of(n) + ".pdf"@))
        } else {
            components(requested)
        },
        None => components(requested),
    }
}

/// Whether the components of a name name one PDF file, with nothing before it.
pub open spec fn names_pdf_file(cs: Seq<PathComponent>) -> bool {
    cs.len() == 1 && cs[0] is Normal && ext_of(cs[0]->Normal_0) == Some("pdf"@)
}

/// The message of a document name that is refused.
pub open spec fn invalid_name_message() -> Seq<char> {
    "invalid document name"@
}

/// Resolves the document name of a request against the documentation root.
///
/// A name without an extension is given the extension `pdf`. The name must
/// then be a single relative component with the extension `pdf`, or the
/// request is refused as `BadRequest("invalid document name")`; otherwise the
/// result is the root joined with that name. Whether the file exists is not
/// decided here (see `confine_to_root`).
pub fn resolve_document(docs_root: &str, requested: &str) -> (r: Result<String, ApiError>)
    ensures
        r is Ok <==> names_pdf_file(with_pdf_extension(requested@)),
        r matches Ok(p) ==> components(p@) == components(docs_root@) + with_pdf_extension(
            requested@,
        ),
        r matches Err(e) ==> e matches ApiError::BadRequest(m) && m@ == invalid_name_message(),
{
    proof {
        reveal_strlit("pdf");
        reveal_strlit(".pdf");
        assert(".pdf"@ =~= seq!['.'] + "pdf"@);
    }
    let named = match path_extension(requested) {
        Some(_) => string_from_chars(chars_of(requested).as_slice()),
        None => {
            let (_, p) = path_set_extension(requested, "pdf");
            proof {
                if let Some(n) = file_name(requested@) {
                    assert(stem_of(n) + seq!['.'] + "pdf"@ =~= stem_of(n) + ".pdf"@);
                }
            }
            p
        },
    };
    assert(components(named@) == with_pdf_extension(requested@));
    proof {
        lemma_absolute_components(named@);
    }
    let absolute = path_is_absolute(named.as_str());
    let count = path_component_count(named.as_str());
    let is_pdf = match path_extension(named.as_str()) {
        Some(ext) => chars_eq(&chars_of(ext.as_str()), &chars_of("pdf")),
        None => false,
    };
    if absolute || count != 1 || !is_pdf {
        return Err(ApiError::BadRequest(string_from_chars(chars_of("invalid document name").as_slice())));
    }
    Ok(path_join(docs_root, named.as_str()))
}

/// Keeps a resolved document only when it lies under the documentation root
/// and is a file: `canonical` is the resolved path made canonical, `is_file`
/// whether it names a regular file. Anything else is `NotFound`.
pub fn confine_to_root(docs_root: &str, canonical: &str, is_file: bool) -> (r: Result<String, ApiError>)
    ensures
        r is Ok <==> components(docs_root@).is_prefix_of(components(canonical@)) && is_file,
        r matches Ok(p) ==> p@ == canonical@,
        r matches Err(e) ==> e is NotFound,
{
    if !path_starts_with(canonical, docs_root) || !is_file {
        return Err(ApiError::NotFound);
    }
    Ok(string_from_chars(chars_of(canonical).as_slice()))
}

} // verus!
