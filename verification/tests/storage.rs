use cctalk_docs::chunk::{Chunk, ContentType};
use cctalk_docs::storage::{
    check_embedding_count, chunk_from_row, chunk_row, content_type_label, join_breadcrumb,
    parse_content_type, split_breadcrumb, validate_embeddings, StorageError, EMBEDDING_DIMS,
};

fn sample_chunk(id: &str, content_type: ContentType) -> Chunk {
    Chunk {
        id: id.to_owned(),
        index: 7,
        document: "cctalk-part-2-v4-7".to_owned(),
        part: 2,
        part_title: "Command Specification".to_owned(),
        doc_version: "4.7".to_owned(),
        section_number: Some("3.2".to_owned()),
        section_title: Some("Header 254 - Simple poll".to_owned()),
        breadcrumb: vec![
            "3 Command List".to_owned(),
            "3.2 Header 254 - Simple poll".to_owned(),
        ],
        header_number: Some(254),
        header_name: Some("Simple poll".to_owned()),
        page_start: 14,
        page_end: 15,
        sub_index: 1,
        sub_total: 3,
        content_type,
        char_count: 42,
        token_count: 11,
        text: "Transmitted data : <none>".to_owned(),
    }
}

fn assert_same_chunk(a: &Chunk, b: &Chunk) {
    assert_eq!(a.id, b.id);
    assert_eq!(a.index, b.index);
    assert_eq!(a.document, b.document);
    assert_eq!(a.part, b.part);
    assert_eq!(a.part_title, b.part_title);
    assert_eq!(a.doc_version, b.doc_version);
    assert_eq!(a.section_number, b.section_number);
    assert_eq!(a.section_title, b.section_title);
    assert_eq!(a.breadcrumb, b.breadcrumb);
    assert_eq!(a.header_number, b.header_number);
    assert_eq!(a.header_name, b.header_name);
    assert_eq!(a.page_start, b.page_start);
    assert_eq!(a.page_end, b.page_end);
    assert_eq!(a.sub_index, b.sub_index);
    assert_eq!(a.sub_total, b.sub_total);
    assert_eq!(a.content_type, b.content_type);
    assert_eq!(a.char_count, b.char_count);
    assert_eq!(a.token_count, b.token_count);
    assert_eq!(a.text, b.text);
}

#[test]
fn rows_hold_joined_breadcrumb_and_labels() {
    let c = sample_chunk("part2-0005-h254-1", ContentType::Command);
    let row = chunk_row(&c).expect("row");
    assert_eq!(row.breadcrumb, "3 Command List :: 3.2 Header 254 - Simple poll");
    assert_eq!(row.content_type, "command");
    assert_eq!(row.chunk_index, 7);
    assert_eq!(row.page_start, 14);
    assert_eq!(row.page_end, 15);
    assert_eq!(row.sub_index, 1);
    assert_eq!(row.sub_total, 3);
    assert_eq!(row.char_count, 42);
    assert_eq!(row.token_count, 11);
    assert_eq!(row.id, "part2-0005-h254-1");
}

#[test]
fn a_row_reads_back_as_its_chunk() {
    for ct in [
        ContentType::Command,
        ContentType::Section,
        ContentType::Table,
        ContentType::Preamble,
    ] {
        let c = sample_chunk("id-0", ct);
        let row = chunk_row(&c).expect("row");
        let back = chunk_from_row(&row).expect("chunk");
        assert_same_chunk(&back, &c);
    }
}

#[test]
fn rows_refuse_counts_beyond_i64() {
    if usize::BITS >= 64 {
        let mut c = sample_chunk("big", ContentType::Section);
        c.page_end = usize::MAX;
        assert!(matches!(chunk_row(&c), Err(StorageError::TooLarge(v)) if v == usize::MAX));
    }
}

#[test]
fn reading_refuses_unknown_labels_and_negative_counts() {
    let c = sample_chunk("x-0", ContentType::Table);
    let mut row = chunk_row(&c).expect("row");
    row.content_type = "figure".to_owned();
    row.page_start = -1;
    assert!(matches!(chunk_from_row(&row), Err(StorageError::UnknownContentType(s)) if s == "figure"));

    let mut row = chunk_row(&c).expect("row");
    row.sub_total = -5;
    row.token_count = -6;
    assert!(matches!(chunk_from_row(&row), Err(StorageError::OutOfRange(14, -5))));

    let mut row = chunk_row(&c).expect("row");
    row.chunk_index = -1;
    assert!(matches!(chunk_from_row(&row), Err(StorageError::OutOfRange(1, -1))));
}

#[test]
fn content_type_labels_round_trip() {
    assert_eq!(content_type_label(ContentType::Command), "command");
    assert_eq!(content_type_label(ContentType::Section), "section");
    assert_eq!(content_type_label(ContentType::Table), "table");
    assert_eq!(content_type_label(ContentType::Preamble), "preamble");
    assert_eq!(parse_content_type("table"), Some(ContentType::Table));
    assert_eq!(parse_content_type("preamble"), Some(ContentType::Preamble));
    assert_eq!(parse_content_type("Command"), None);
    assert_eq!(parse_content_type(""), None);
}

#[test]
fn breadcrumbs_split_on_the_separator() {
    assert_eq!(split_breadcrumb("a :: b :: c"), vec!["a", "b", "c"]);
    assert_eq!(split_breadcrumb(""), vec![""]);
    assert_eq!(split_breadcrumb(" :: "), vec!["", ""]);
    assert_eq!(split_breadcrumb("a :: : b"), vec!["a", ": b"]);
    assert_eq!(split_breadcrumb("a ::: b"), vec!["a ::: b"]);
    assert_eq!(split_breadcrumb("a::b"), vec!["a::b"]);
    assert_eq!(
        split_breadcrumb("[\"Introduction\"]"),
        vec!["[\"Introduction\"]"]
    );
    let parts = vec!["3 Command List".to_owned(), "3.2 Header 254".to_owned()];
    assert_eq!(join_breadcrumb(&parts), "3 Command List :: 3.2 Header 254");
    assert_eq!(split_breadcrumb(&join_breadcrumb(&parts)), parts);
    assert_eq!(join_breadcrumb(&vec![]), "");
    assert_eq!(split_breadcrumb(&join_breadcrumb(&vec![])), vec![""]);
    let trailing = vec!["x ::".to_owned(), "y".to_owned()];
    assert_eq!(split_breadcrumb(&join_breadcrumb(&trailing)), vec!["x", ":: y"]);
    let last_trailing = vec!["y".to_owned(), "x ::".to_owned()];
    assert_eq!(split_breadcrumb(&join_breadcrumb(&last_trailing)), last_trailing);
    let colons = vec!["Note: a".to_owned(), "b : c".to_owned()];
    assert_eq!(split_breadcrumb(&join_breadcrumb(&colons)), colons);
}

#[test]
fn breadcrumb_split_agrees_with_str_split() {
    for s in ["x", "a :: b", " ::  :: ", "::", "a :: :: b ::", "é :: ü"] {
        let expected: Vec<String> = s.split(" :: ").map(str::to_string).collect();
        assert_eq!(split_breadcrumb(s), expected, "column {s:?}");
    }
}

#[test]
fn embeddings_must_match_chunks_and_dimensions() {
    let chunks = vec![
        sample_chunk("a-0", ContentType::Section),
        sample_chunk("b-0", ContentType::Section),
    ];
    assert!(validate_embeddings(&chunks, &[EMBEDDING_DIMS, EMBEDDING_DIMS]).is_ok());
    assert!(matches!(
        validate_embeddings(&chunks, &[EMBEDDING_DIMS]),
        Err(StorageError::CountMismatch(2, 1))
    ));
    assert!(matches!(
        validate_embeddings(&chunks, &[EMBEDDING_DIMS, 383]),
        Err(StorageError::Dimensions(id, 383)) if id == "b-0"
    ));
    assert!(matches!(
        validate_embeddings(&chunks, &[10, 383]),
        Err(StorageError::Dimensions(id, 10)) if id == "a-0"
    ));
    assert!(validate_embeddings(&[], &[]).is_ok());
    assert_eq!(EMBEDDING_DIMS, 384);
}

#[test]
fn embedding_counts_must_agree() {
    assert!(check_embedding_count(3, 3).is_ok());
    assert!(matches!(
        check_embedding_count(1, 0),
        Err(StorageError::CountMismatch(1, 0))
    ));
}
