use std::str::FromStr;

use cctalk_docs::chunk::{query_input, Chunk, ContentType};
use cctalk_docs::chunker::ChunkError;
use cctalk_docs::chunker::{
    base_content_type, chunk_document, count_tokens, emit_counted, emit_segment, emit_sub_chunks,
    estimate_tokens,
    looks_like_table, tokens_or_estimate, MAX_TOKENS,
};
use cctalk_docs::meta::{part_title, DocMeta};
use cctalk_docs::page::PageMap;
use cctalk_docs::outline::Segment;
use tokenizers::Tokenizer;

/// A tokenizer that makes one token of every whitespace-separated word.
fn word_tokenizer() -> Tokenizer {
    Tokenizer::from_str(
        r#"{
  "version": "1.0",
  "truncation": null,
  "padding": null,
  "added_tokens": [],
  "normalizer": null,
  "pre_tokenizer": {"type": "WhitespaceSplit"},
  "post_processor": null,
  "decoder": null,
  "model": {"type": "WordLevel", "vocab": {"[UNK]": 0}, "unk_token": "[UNK]"}
}"#,
    )
    .expect("valid tokenizer")
}

fn chunk_with(breadcrumb: &[&str], text: &str) -> Chunk {
    Chunk {
        id: "part1-0000-s1-0".to_owned(),
        index: 0,
        document: "doc".to_owned(),
        part: 1,
        part_title: "Introduction & General Description".to_owned(),
        doc_version: "4.7".to_owned(),
        section_number: Some("1".to_owned()),
        section_title: Some("Intro".to_owned()),
        breadcrumb: breadcrumb.iter().map(|s| (*s).to_owned()).collect(),
        header_number: None,
        header_name: None,
        page_start: 1,
        page_end: 1,
        sub_index: 0,
        sub_total: 1,
        content_type: ContentType::Section,
        char_count: text.chars().count(),
        token_count: 2,
        text: text.to_owned(),
    }
}

#[test]
fn embedding_input_prefixes_passage_and_breadcrumb() {
    let c = chunk_with(&["3 Command List", "3.2 Header 254 - Simple poll"], "body text");
    assert_eq!(
        c.embedding_input(),
        "passage: 3 Command List 3.2 Header 254 - Simple poll\nbody text"
    );
    let bare = chunk_with(&[], "only");
    assert_eq!(bare.embedding_input(), "passage: \nonly");
}

#[test]
fn query_input_prefixes_query() {
    assert_eq!(query_input("read coin events"), "query: read coin events");
    assert_eq!(query_input(""), "query: ");
}

#[test]
fn looks_like_table_needs_four_rows_mostly_numeric() {
    assert!(!looks_like_table("1 a\n2 b\n3 c"));
    assert!(looks_like_table("1 a\n2 b\n3 c\nx"));
    assert!(!looks_like_table("1 a\n2 b\nx\ny"));
    assert!(looks_like_table("  1 a  \n\n 2 b\n3 c\n\nword"));
    assert!(!looks_like_table("1 a b c d e f g h i\n2 a b c d e f g h i\n3\n4\nx"));
    assert!(looks_like_table("1 a b c d e f g\n2 a b c d e f g\n3\n4\nx"));
    assert!(!looks_like_table("\u{0661} a\n\u{0662} b\n\u{0663} c\n\u{0664} d"));
    assert!(!looks_like_table(""));
}

fn oracle_table(text: &str) -> bool {
    let rows: Vec<&str> = text
        .lines()
        .map(str::trim)
        .filter(|l| !l.is_empty())
        .collect();
    if rows.len() < 4 {
        return false;
    }
    let numeric = rows
        .iter()
        .filter(|l| l.starts_with(|c: char| c.is_ascii_digit()) && l.split_whitespace().count() <= 8)
        .count();
    numeric * 2 > rows.len()
}

#[test]
fn looks_like_table_agrees_with_row_counting() {
    let samples = [
        "1 2 3\n4 5 6\n7 8 9\n10 11 12",
        "B0 coin\n1 2\n3 4\n5 6\n\r\n7 8",
        "a\nb\nc\nd\n1\n2\n3\n4",
        "a\nb\nc\n1\n2\n3\n4",
        "1\u{00a0}2 3\n4\u{3000}5\n6\n7",
        " \t 9 \t\n8\n7\n6\n",
    ];
    for s in samples {
        assert_eq!(looks_like_table(s), oracle_table(s), "text {s:?}");
    }
}

#[test]
fn estimate_tokens_counts_four_tokens_per_three_words() {
    assert_eq!(estimate_tokens(""), 0);
    assert_eq!(estimate_tokens("one"), 1);
    assert_eq!(estimate_tokens("one two"), 2);
    assert_eq!(estimate_tokens("a b c"), 4);
    assert_eq!(estimate_tokens("  a\tb\nc   d  "), 5);
    assert_eq!(estimate_tokens("a b c d e f"), 8);
}

#[test]
fn token_count_falls_back_to_the_estimate() {
    assert_eq!(tokens_or_estimate(Some(17), "a b c"), 17);
    assert_eq!(tokens_or_estimate(None, "a b c"), 4);
    assert_eq!(tokens_or_estimate(Some(0), "a b c"), 0);
}

#[test]
fn count_tokens_uses_the_tokenizer() {
    let tok = word_tokenizer();
    assert_eq!(count_tokens(&tok, "one two three four"), 4);
    assert_eq!(count_tokens(&tok, ""), 0);
}

#[test]
fn base_content_type_distinguishes_commands_sections_and_preamble() {
    let mut seg = Segment {
        number: Some("3.2".to_owned()),
        title: Some("Header 254 - Simple poll".to_owned()),
        start: 0,
        end: 0,
        header_number: Some(254),
        header_name: Some("Simple poll".to_owned()),
        breadcrumb: vec![],
    };
    assert_eq!(base_content_type(&seg), ContentType::Command);
    seg.header_number = None;
    assert_eq!(base_content_type(&seg), ContentType::Section);
    seg.number = None;
    assert_eq!(base_content_type(&seg), ContentType::Preamble);
}

#[test]
fn chunk_document_emits_one_chunk_per_small_section() {
    let tok = word_tokenizer();
    let pages = vec![
        "Public Domain Document\n3. Command List\nintro text here\n".to_owned(),
        "3.1 Header 255 - Factory set-up and test\nbody\n3.2 Header 254 - Simple poll\nTransmitted data : <none>\n1 a\n2 b\n3 c\n4 d".to_owned(),
    ];
    let chunks = chunk_document(&pages, "docs/cctalk-part-2-v4-7.pdf", &tok).expect("chunks");
    assert_eq!(chunks.len(), 3);
    for (i, c) in chunks.iter().enumerate() {
        assert_eq!(c.index, i);
        assert_eq!(c.document, "cctalk-part-2-v4-7");
        assert_eq!(c.part, 2);
        assert_eq!(c.part_title, "Command Specification");
        assert_eq!(c.doc_version, "4.7");
        assert_eq!(c.sub_index, 0);
        assert_eq!(c.sub_total, 1);
        assert_eq!(c.char_count, c.text.chars().count());
        assert_eq!(c.token_count, c.text.split_whitespace().count());
    }
    assert_eq!(chunks[0].id, "part2-0000-s3-0");
    assert_eq!(chunks[0].text, "3. Command List\nintro text here");
    assert_eq!(chunks[0].content_type, ContentType::Section);
    assert_eq!(chunks[0].breadcrumb, vec!["3 Command List".to_owned()]);
    assert_eq!((chunks[0].page_start, chunks[0].page_end), (1, 1));

    assert_eq!(chunks[1].id, "part2-0001-h255-0");
    assert_eq!(chunks[1].header_number, Some(255));
    assert_eq!(chunks[1].content_type, ContentType::Command);
    assert_eq!((chunks[1].page_start, chunks[1].page_end), (2, 2));

    assert_eq!(chunks[2].id, "part2-0002-h254-0");
    assert_eq!(chunks[2].header_name.as_deref(), Some("Simple poll"));
    assert_eq!(chunks[2].section_number.as_deref(), Some("3.2"));
    assert_eq!(chunks[2].section_title.as_deref(), Some("Header 254 - Simple poll"));
    assert_eq!(
        chunks[2].breadcrumb,
        vec!["3 Command List".to_owned(), "3.2 Header 254 - Simple poll".to_owned()]
    );
    assert_eq!(chunks[2].content_type, ContentType::Command);
}

#[test]
fn chunk_document_splits_oversized_sections() {
    let tok = word_tokenizer();
    let words: Vec<String> = (0..700).map(|i| format!("w{i}")).collect();
    let body = words.join(" ");
    let pages = vec![format!("1.1 Big section\n{body}"), "1.2 Small table\n1 a\n2 b\n3 c\n4 d".to_owned()];
    let chunks = chunk_document(&pages, "cctalk-part-1-v4-7.pdf", &tok).expect("chunks");
    assert!(chunks.len() >= 4);
    let big: Vec<&Chunk> = chunks.iter().filter(|c| c.section_number.as_deref() == Some("1.1")).collect();
    let n = big.len();
    assert!(n >= 3);
    for (k, c) in big.iter().enumerate() {
        assert_eq!(c.sub_index, k);
        assert_eq!(c.sub_total, n);
        assert_eq!(c.index, k);
        assert_eq!(c.id, format!("part1-0000-s1_1-{k}"));
        let prefix = format!("[Part 1 | 1.1 Big section | {}/{}]\n", k + 1, n);
        assert!(c.text.starts_with(&prefix), "chunk {k}: {:?}", &c.text[..40]);
        let piece = &c.text[prefix.len()..];
        assert!(piece.split_whitespace().count() <= MAX_TOKENS);
        assert_eq!(c.page_start, 1);
        assert_eq!(c.page_end, 1);
    }
    let first_piece = &big[0].text[big[0].text.find('\n').expect("line") + 1..];
    assert!(first_piece.starts_with("1.1 Big section"));
    let last = big[n - 1];
    assert!(last.text.ends_with("w699"));
    for (i, a) in chunks.iter().enumerate() {
        for b in &chunks[i + 1..] {
            assert_ne!(a.id, b.id);
        }
    }
    let table = chunks.last().expect("table chunk");
    assert_eq!(table.content_type, ContentType::Table);
    assert_eq!(table.id, "part1-0001-s1_2-0");
    assert_eq!(table.index, n);
    assert_eq!((table.page_start, table.page_end), (2, 2));
}

#[test]
fn chunk_document_of_empty_pages_is_empty() {
    let tok = word_tokenizer();
    let chunks = chunk_document(&[], "x.pdf", &tok).expect("chunks");
    assert!(chunks.is_empty());
    let blank = chunk_document(&["  \n\n".to_owned()], "x.pdf", &tok).expect("chunks");
    assert!(blank.is_empty());
}

#[test]
fn chunk_document_emits_a_long_preamble() {
    let tok = word_tokenizer();
    let front = "front matter ".repeat(20);
    let pages = vec![front.clone(), "1. First\nbody".to_owned()];
    let chunks = chunk_document(&pages, "cctalk-part-3-v4-7.pdf", &tok).expect("chunks");
    assert_eq!(chunks.len(), 2);
    assert_eq!(chunks[0].content_type, ContentType::Preamble);
    assert_eq!(chunks[0].id, "part3-0000-preamble-0");
    assert_eq!(chunks[0].text, front.trim());
    assert_eq!(chunks[0].breadcrumb, vec!["Preamble".to_owned()]);
    assert_eq!(chunks[1].id, "part3-0001-s1-0");
    assert_eq!((chunks[1].page_start, chunks[1].page_end), (2, 2));
}

#[test]
fn sub_chunks_follow_the_pieces_they_are_given() {
    let tok = word_tokenizer();
    let text = "intro\n2.1 Timing\n  alpha beta gamma\ndelta epsilon\n";
    let t: Vec<char> = text.chars().collect();
    let seg = Segment {
        number: Some("2.1".to_owned()),
        title: Some("Timing".to_owned()),
        start: 6,
        end: t.len(),
        header_number: None,
        header_name: None,
        breadcrumb: vec!["2 Protocol".to_owned(), "2.1 Timing".to_owned()],
    };
    let meta = DocMeta {
        document: "cctalk-part-1-v4-7".to_owned(),
        part: 1,
        part_title: part_title(1),
        doc_version: "4.7".to_owned(),
    };
    let map = PageMap::from_starts(vec![0, 20]).expect("increasing");
    // The trimmed body is "2.1 Timing\n  alpha beta gamma\ndelta epsilon".
    let pieces = vec![
        (0, "2.1 Timing\n  alpha beta".to_owned()),
        (19, "beta gamma\ndelta".to_owned()),
        (36, "epsilon".to_owned()),
    ];
    let mut out = vec![chunk_with(&["earlier"], "earlier chunk")];
    let mut next = 1;
    emit_sub_chunks(&seg, 4, &t, &map, &meta, &tok, &pieces, &mut next, &mut out).expect("within the limit");
    assert_eq!(next, 4);
    assert_eq!(out.len(), 4);
    assert_eq!(out[0].text, "earlier chunk");
    for (k, c) in out[1..].iter().enumerate() {
        assert_eq!(c.index, k + 1);
        assert_eq!(c.sub_index, k);
        assert_eq!(c.sub_total, 3);
        assert_eq!(c.id, format!("part1-0004-s2_1-{k}"));
        assert_eq!(
            c.text,
            format!("[Part 1 | 2.1 Timing | {}/3]\n{}", k + 1, pieces[k].1)
        );
        assert_eq!(c.char_count, c.text.chars().count());
        assert_eq!(c.content_type, ContentType::Section);
    }
    assert_eq!((out[1].page_start, out[1].page_end), (1, 2));
    assert_eq!((out[2].page_start, out[2].page_end), (2, 2));
    assert_eq!((out[3].page_start, out[3].page_end), (2, 2));
    let none: Vec<(usize, String)> = vec![];
    emit_sub_chunks(&seg, 5, &t, &map, &meta, &tok, &none, &mut next, &mut out).expect("nothing to add");
    assert_eq!(out.len(), 4);
    assert_eq!(next, 4);
}

fn timing_fixture() -> (Vec<char>, Segment, DocMeta, PageMap) {
    let text = "intro\n2.1 Timing\n  alpha beta gamma\ndelta epsilon\n";
    let t: Vec<char> = text.chars().collect();
    let seg = Segment {
        number: Some("2.1".to_owned()),
        title: Some("Timing".to_owned()),
        start: 6,
        end: t.len(),
        header_number: None,
        header_name: None,
        breadcrumb: vec!["2 Protocol".to_owned(), "2.1 Timing".to_owned()],
    };
    let meta = DocMeta {
        document: "cctalk-part-1-v4-7".to_owned(),
        part: 1,
        part_title: part_title(1),
        doc_version: "4.7".to_owned(),
    };
    let map = PageMap::from_starts(vec![0, 20]).expect("increasing");
    (t, seg, meta, map)
}

#[test]
fn a_body_within_the_budget_is_one_chunk() {
    let tok = word_tokenizer();
    let (t, seg, meta, map) = timing_fixture();
    let mut out = Vec::new();
    let mut next = 40;
    emit_counted(&seg, 2, &t, &map, &meta, &tok, MAX_TOKENS, &mut next, &mut out).expect("ok");
    assert_eq!(out.len(), 1);
    assert_eq!(next, 41);
    let c = &out[0];
    assert_eq!(c.text, "2.1 Timing\n  alpha beta gamma\ndelta epsilon");
    assert_eq!(c.id, "part1-0002-s2_1-0");
    assert_eq!(c.index, 40);
    assert_eq!((c.sub_index, c.sub_total), (0, 1));
    assert_eq!((c.page_start, c.page_end), (1, 2));
}

#[test]
fn a_body_over_the_budget_is_split() {
    let tok = word_tokenizer();
    let (t, seg, meta, map) = timing_fixture();
    let mut out = Vec::new();
    let mut next = 7;
    emit_counted(&seg, 2, &t, &map, &meta, &tok, MAX_TOKENS + 1, &mut next, &mut out).expect("ok");
    assert!(!out.is_empty());
    assert_eq!(next, 7 + out.len());
    for (k, c) in out.iter().enumerate() {
        assert_eq!(c.index, 7 + k);
        assert_eq!(c.sub_index, k);
        assert_eq!(c.sub_total, out.len());
        assert!(c.text.starts_with(&format!("[Part 1 | 2.1 Timing | {}/{}]\n", k + 1, out.len())));
        assert!(c.page_start <= c.page_end);
    }
}

#[test]
fn a_blank_segment_yields_nothing() {
    let tok = word_tokenizer();
    let (t, mut seg, meta, map) = timing_fixture();
    seg.start = t.len() - 1;
    let mut out = vec![chunk_with(&[], "kept")];
    let mut next = 5;
    emit_segment(&seg, 0, &t, &map, &meta, &tok, &mut next, &mut out).expect("ok");
    assert_eq!(out.len(), 1);
    assert_eq!(next, 5);
}

#[test]
fn emit_segment_numbers_from_the_counter() {
    let tok = word_tokenizer();
    let (t, seg, meta, map) = timing_fixture();
    let mut out = Vec::new();
    let mut next = 100;
    emit_segment(&seg, 3, &t, &map, &meta, &tok, &mut next, &mut out).expect("ok");
    assert_eq!(out.len(), 1);
    assert_eq!(next, 101);
    assert_eq!(out[0].index, 100);
    assert_eq!(out[0].token_count, 7);
}

#[test]
fn chunk_pages_never_run_backwards() {
    let tok = word_tokenizer();
    let words: Vec<String> = (0..600).map(|i| format!("w{i}")).collect();
    let pages = vec![
        format!("1.1 Big\n{}", words[..300].join(" ")),
        words[300..].join(" "),
        "1.2 Small\nbody".to_owned(),
    ];
    let chunks = chunk_document(&pages, "cctalk-part-1-v4-7.pdf", &tok).expect("chunks");
    for c in &chunks {
        assert!(1 <= c.page_start && c.page_start <= c.page_end && c.page_end <= 3);
    }
    assert!(chunks.iter().any(|c| c.page_start == 1 && c.page_end == 2) || chunks.iter().any(|c| c.page_start == 2));
}

/// A tokenizer that knows only the word "ok" and has no unknown token, so it
/// fails on any other word.
fn strict_tokenizer() -> Tokenizer {
    Tokenizer::from_str(
        r##"{
  "version": "1.0",
  "truncation": null,
  "padding": null,
  "added_tokens": [],
  "normalizer": null,
  "pre_tokenizer": {"type": "WhitespaceSplit"},
  "post_processor": null,
  "decoder": null,
  "model": {"type": "WordPiece", "unk_token": "[UNK]", "continuing_subword_prefix": "~~", "max_input_chars_per_word": 100, "vocab": {"ok": 0}}
}"##,
    )
    .expect("valid tokenizer")
}

#[test]
fn a_failing_tokenizer_is_an_error_not_a_panic() {
    let tok = strict_tokenizer();
    let (t, seg, meta, map) = timing_fixture();
    let mut out = Vec::new();
    let mut next = 0;
    let r = emit_counted(&seg, 2, &t, &map, &meta, &tok, MAX_TOKENS + 1, &mut next, &mut out);
    assert!(matches!(r, Err(ChunkError::Tokenizer(_))));
    assert!(out.is_empty());
    assert_eq!(next, 0);
}

#[test]
fn a_sub_chunk_over_the_model_limit_is_refused() {
    let tok = word_tokenizer();
    let (t, seg, meta, _) = timing_fixture();
    let long = vec!["w"; 600].join(" ");
    let text = format!("intro\n2.1 Timing\n{long}\n");
    let t2: Vec<char> = text.chars().collect();
    let mut seg2 = seg;
    seg2.end = t2.len();
    let map = PageMap::from_starts(vec![0]).expect("one page");
    let pieces = vec![(0, format!("2.1 Timing\n{long}"))];
    let mut out = Vec::new();
    let mut next = 0;
    let r = emit_sub_chunks(&seg2, 0, &t2, &map, &meta, &tok, &pieces, &mut next, &mut out);
    assert!(matches!(r, Err(ChunkError::TokenLimit(ref id, n)) if id == "part1-0000-s2_1-0" && n > 512));
    assert!(out.is_empty());
    let _ = t;
}

#[test]
fn sub_chunks_cover_the_whole_section() {
    let tok = word_tokenizer();
    let words: Vec<String> = (0..700).map(|i| format!("w{i}")).collect();
    let pages = vec![format!("1.1 Big section\n{}", words.join(" "))];
    let chunks = chunk_document(&pages, "cctalk-part-1-v4-7.pdf", &tok).expect("chunks");
    for w in &words {
        assert!(chunks.iter().any(|c| c.text.split_whitespace().any(|x| x == w)), "{w} lost");
    }
    assert!(chunks.iter().all(|c| c.token_count <= 512));
}
