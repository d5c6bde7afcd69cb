use cctalk_docs::api::{
    confine_to_root, resolve_document, ApiError, DocumentParams, QueryParams, DEFAULT_LIMIT,
};

fn bad_request(r: Result<String, ApiError>) -> bool {
    matches!(r, Err(ApiError::BadRequest(m)) if m == "invalid document name")
}

#[test]
fn errors_map_to_status_codes_and_messages() {
    assert_eq!(ApiError::NotFound.status_code(), 404);
    assert_eq!(ApiError::NotFound.message(), "not found");
    let e = ApiError::InternalServerError("lock poisoned".to_owned());
    assert_eq!(e.status_code(), 500);
    assert_eq!(e.message(), "lock poisoned");
    let e = ApiError::BadRequest("invalid document name".to_owned());
    assert_eq!(e.status_code(), 400);
    assert_eq!(e.message(), "invalid document name");
}

#[test]
fn query_limit_defaults_to_three() {
    let q = QueryParams {
        query: "coin events".to_owned(),
        limit: None,
    };
    assert_eq!(q.limit_or_default(), 3);
    assert_eq!(DEFAULT_LIMIT, 3);
    let q = QueryParams {
        query: "coin events".to_owned(),
        limit: Some(10),
    };
    assert_eq!(q.limit_or_default(), 10);
}

#[test]
fn page_window_counts_pages_from_one() {
    let p = DocumentParams {
        document: "cctalk-part-2-v4-7".to_owned(),
        page_start: 14,
        count: Some(2),
    };
    assert_eq!(p.page_window(), (13, 2));
    let p = DocumentParams {
        document: "cctalk-part-2-v4-7".to_owned(),
        page_start: 1,
        count: None,
    };
    assert_eq!(p.page_window(), (0, 1));
}

#[test]
fn document_names_get_a_pdf_extension() {
    assert_eq!(
        resolve_document("/srv/docs", "cctalk-part-2-v4-7").expect("valid"),
        "/srv/docs/cctalk-part-2-v4-7.pdf"
    );
    assert_eq!(
        resolve_document("/srv/docs/", "part.pdf").expect("valid"),
        "/srv/docs/part.pdf"
    );
    assert_eq!(
        resolve_document("docs", "a.pdf/").expect("valid"),
        "docs/a.pdf/"
    );
    assert_eq!(
        resolve_document("/srv/docs", ".hidden").expect("valid"),
        "/srv/docs/.hidden.pdf"
    );
}

#[test]
fn document_names_outside_the_root_are_refused() {
    assert!(bad_request(resolve_document("/srv/docs", "../secret")));
    assert!(bad_request(resolve_document("/srv/docs", "..")));
    assert!(bad_request(resolve_document("/srv/docs", ".")));
    assert!(bad_request(resolve_document("/srv/docs", "/etc/passwd")));
    assert!(bad_request(resolve_document("/srv/docs", "/abs.pdf")));
    assert!(bad_request(resolve_document("/srv/docs", "sub/dir.pdf")));
    assert!(bad_request(resolve_document("/srv/docs", "./local.pdf")));
    assert!(bad_request(resolve_document("/srv/docs", "notes.txt")));
    assert!(bad_request(resolve_document("/srv/docs", "file.")));
    assert!(bad_request(resolve_document("/srv/docs", "")));
}

#[test]
fn resolved_documents_must_stay_under_the_root_and_be_files() {
    assert_eq!(
        confine_to_root("/srv/docs", "/srv/docs/a.pdf", true).expect("inside"),
        "/srv/docs/a.pdf"
    );
    assert!(matches!(
        confine_to_root("/srv/docs", "/srv/docs/a.pdf", false),
        Err(ApiError::NotFound)
    ));
    assert!(matches!(
        confine_to_root("/srv/docs", "/srv/docsx/a.pdf", true),
        Err(ApiError::NotFound)
    ));
    assert!(matches!(
        confine_to_root("/srv/docs", "/etc/passwd", true),
        Err(ApiError::NotFound)
    ));
}
