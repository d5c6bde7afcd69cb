use cctalk_docs::heading::has_section_heading;
use cctalk_docs::outline::{build_outline, parse_header, Segment};
use cctalk_docs::page::{clean_page, concatenate, PageMap};
use regex::Regex;

#[test]
fn clean_page_strips_boilerplate_and_toc() {
    let raw = "Public Domain Document\n\
               ccTalk Generic Specification - Crane Payment Solutions - Page 7 of 80 - ccTalk Part 2 v4.7.doc\n\
               While every effort has been made to ensure the accuracy of this document\n\
               accepted or implied for any errors or omissions that are contained herein.\n\
               3.2 Header 254 - Simple poll\n\
               Transmitted data : <none>\n\
               1.1 Core Commands....................................................................3";
    let cleaned = clean_page(raw);
    assert!(cleaned.contains("Header 254 - Simple poll"));
    assert!(cleaned.contains("Transmitted data"));
    assert!(!cleaned.contains("Public Domain"));
    assert!(!cleaned.contains("Page 7 of 80"));
    assert!(!cleaned.contains("While every effort"));
    assert!(!cleaned.contains("Core Commands"));
}

#[test]
fn parse_header_extracts_number_and_name() {
    assert_eq!(
        parse_header("Header 254 - Simple poll"),
        (Some(254), Some("Simple poll".to_owned()))
    );
    assert_eq!(parse_header("Notation"), (None, None));
}

#[test]
fn section_regex_ignores_prose_numbers() {
    assert!(has_section_heading("3.2 Header 254 - Simple poll"));
    assert!(has_section_heading("7.8.1 Add for Sorter / Diverter Support"));
    assert!(has_section_heading("3. Command List"));
    assert!(!has_section_heading("1 or more - maximum number of coins"));
    assert!(!has_section_heading("B0 - Coin Type 1"));
}

#[test]
fn build_outline_tracks_breadcrumb_depth() {
    let text = "3. Command List\nintro text here\n\
                3.1 Header 255 - Factory set-up and test\nbody\n\
                3.2 Header 254 - Simple poll\nbody two\n";
    let segments = build_outline(text);
    let simple = segments
        .iter()
        .find(|s| s.header_number == Some(254))
        .expect("simple poll segment");
    assert_eq!(simple.header_name.as_deref(), Some("Simple poll"));
    assert_eq!(
        simple.breadcrumb,
        vec![
            "3 Command List".to_owned(),
            "3.2 Header 254 - Simple poll".to_owned()
        ]
    );
}

#[test]
fn page_map_resolves_pages_across_seam() {
    let map = PageMap::from_starts(vec![0, 10, 25]).expect("increasing starts");
    assert_eq!(map.page_at(0), 1);
    assert_eq!(map.page_at(9), 1);
    assert_eq!(map.page_at(10), 2);
    assert_eq!(map.page_at(24), 2);
    assert_eq!(map.page_at(25), 3);
    assert_eq!(map.page_at(100), 3);
}

#[test]
fn page_map_before_first_page_is_page_one() {
    let map = PageMap::from_starts(vec![5, 10]).expect("increasing starts");
    assert_eq!(map.page_at(0), 1);
    assert_eq!(map.page_at(4), 1);
    assert_eq!(map.page_at(5), 1);
    assert_eq!(map.page_at(10), 2);
}

#[test]
fn page_map_rejects_starts_that_do_not_increase() {
    assert!(PageMap::from_starts(vec![0, 10, 10]).is_none());
    assert!(PageMap::from_starts(vec![3, 1]).is_none());
    assert!(PageMap::from_starts(vec![]).is_some());
    assert_eq!(
        PageMap::from_starts(vec![0, 4]).expect("increasing").starts(),
        &vec![0, 4]
    );
}

#[test]
fn concatenate_records_page_starts_in_characters() {
    let pages = vec![
        "Public Domain Document\nfirst page".to_owned(),
        "héllo".to_owned(),
        "".to_owned(),
        "last".to_owned(),
    ];
    let (text, map) = concatenate(&pages);
    assert_eq!(text, "first page\nhéllo\n\nlast\n");
    assert_eq!(map.starts(), &vec![0, 11, 17, 18]);
    assert_eq!(map.page_at(12), 2);
    assert_eq!(map.page_at(17), 3);
    assert_eq!(map.page_at(19), 4);
}

#[test]
fn clean_page_keeps_indentation_and_drops_blank_lines() {
    let raw = "  indented line   \r\n\n   \n\tsecond\t\nIssue 4.7\nissue 4.7 revised";
    assert_eq!(clean_page(raw), "  indented line\n\tsecond\nissue 4.7 revised");
}

#[test]
fn clean_page_footer_needs_a_word_boundary() {
    let footer = "ccTalk Generic Specification - Page 3 of 9";
    assert_eq!(clean_page(footer), "");
    let glued = "ccTalk Generic Specificationx Page 3 of 9";
    assert_eq!(clean_page(glued), glued);
    let other = "CCTALK GENERIC SPECIFICATION, PAGE 12 OF 80 (draft)";
    assert_eq!(clean_page(other), "");
}

#[test]
fn parse_header_accepts_en_dash_and_trims_the_name() {
    assert_eq!(
        parse_header("Header 1 \u{2013} Reset device  "),
        (Some(1), Some("Reset device".to_owned()))
    );
    assert_eq!(parse_header("Header 1234 - Too long"), (None, None));
    assert_eq!(parse_header("Header 999 - Big"), (Some(999), Some("Big".to_owned())));
    assert_eq!(parse_header("Header 12 -"), (None, None));
}

fn section_regex() -> Regex {
    Regex::new(r"(?m)^\s*(\d+(?:\.\d+)+\.?|\d+\.)\s+(\S.*?)\s*$").expect("valid")
}

fn header_regex() -> Regex {
    Regex::new(r"^Header\s+(\d{1,3})\s*[-\x{2013}]\s*(.+?)\s*$").expect("valid")
}

fn boilerplate_regex() -> Regex {
    let alternatives = [
        r"public domain document",
        r"cctalk generic specification\b.*page\s+\d+\s+of\s+\d+",
        r"while every effort has been made",
        r"accepted or implied for any errors",
        r"crane payment solutions (?:does not|shall not)",
        r"contained within this document",
        r"one issue to the next",
        r"arising out of the adherence",
        r"issue\s+\d+\.\d+\s*$",
    ];
    Regex::new(&format!("(?i)^(?:{})", alternatives.join("|")))
    .expect("valid")
}

fn toc_regex() -> Regex {
    Regex::new(r"\.{4,}\s*\d+\s*$").expect("valid")
}

fn oracle_clean_page(raw: &str) -> String {
    let boilerplate = boilerplate_regex();
    let toc = toc_regex();
    raw.lines()
        .filter_map(|line| {
            let trimmed = line.trim_end();
            let probe = trimmed.trim_start();
            if probe.is_empty() || boilerplate.is_match(probe) || toc.is_match(probe) {
                None
            } else {
                Some(trimmed)
            }
        })
        .collect::<Vec<_>>()
        .join("\n")
}

fn oracle_parse_header(title: &str) -> (Option<u16>, Option<String>) {
    header_regex().captures(title).map_or((None, None), |caps| {
        let num = caps.get(1).and_then(|m| m.as_str().parse::<u16>().ok());
        let name = caps.get(2).map(|m| m.as_str().trim().to_owned());
        (num, name)
    })
}

struct OracleSegment {
    number: Option<String>,
    title: Option<String>,
    start: usize,
    end: usize,
    breadcrumb: Vec<String>,
}

fn oracle_outline(text: &str) -> Vec<OracleSegment> {
    let mut heads: Vec<(String, String, usize)> = Vec::new();
    for caps in section_regex().captures_iter(text) {
        let (Some(whole), Some(num), Some(title)) = (caps.get(0), caps.get(1), caps.get(2)) else {
            continue;
        };
        let number = num.as_str().trim_end_matches('.').to_owned();
        heads.push((number, title.as_str().trim().to_owned(), whole.start()));
    }
    let mut segments = Vec::new();
    let first_start = heads.first().map_or(text.len(), |(_, _, s)| *s);
    if text[..first_start].trim().len() >= 200 {
        segments.push(OracleSegment {
            number: None,
            title: Some("Preamble".to_owned()),
            start: 0,
            end: first_start,
            breadcrumb: vec!["Preamble".to_owned()],
        });
    }
    let mut stack: Vec<(usize, String)> = Vec::new();
    for (i, (number, title, start)) in heads.iter().enumerate() {
        let depth = number.matches('.').count() + 1;
        while stack.last().is_some_and(|(d, _)| *d >= depth) {
            stack.pop();
        }
        stack.push((depth, format!("{number} {title}")));
        let end = heads.get(i + 1).map_or(text.len(), |(_, _, s)| *s);
        segments.push(OracleSegment {
            number: Some(number.clone()),
            title: Some(title.clone()),
            start: *start,
            end,
            breadcrumb: stack.iter().map(|(_, l)| l.clone()).collect(),
        });
    }
    segments
}

/// Character offset of a byte offset in `s`.
fn char_offset(s: &str, byte: usize) -> usize {
    s[..byte].chars().count()
}

fn sample_lines() -> Vec<&'static str> {
    vec![
        "3.2 Header 254 - Simple poll",
        "7.8.1 Add for Sorter / Diverter Support",
        "3. Command List",
        "1 or more - maximum number of coins",
        "B0 - Coin Type 1",
        "  12.3.4.   Indented heading  ",
        "1.1",
        "1.1 ",
        "1.1  x",
        "2.",
        "2. ",
        "10. Ten",
        "1..2 Bad",
        "1.2.3.4.5 Deep heading",
        "\t4.1\tTabbed title\t",
        "4.1 Title with trailing dots.",
        "5 Five",
        "x1.2 Not at start",
        "1.2\u{00a0}No-break space",
        "1.2 \u{00e9}t\u{00e9}",
        "\u{0663}.\u{0664} Arabic-Indic digits",
        "Header 254 - Simple poll",
        "Header 1 \u{2013} Reset",
        "Header 12 - ",
        "Header  7-Tight",
        "header 7 - lower case",
        "Header 0042 - Four digits",
        "Public Domain Document",
        "PUBLIC DOMAIN DOCUMENT and more",
        "ccTalk Generic Specification - Crane Payment Solutions - Page 7 of 80 - x.doc",
        "ccTalk generic specificationX page 7 of 80",
        "cctalk generic specification page 7 of",
        "While every effort has been made",
        "accepted or implied for any errors",
        "Crane Payment Solutions does not accept",
        "Crane Payment Solutions shall not",
        "Crane Payment Solutions may",
        "contained within this document",
        "one issue to the next",
        "arising out of the adherence",
        "Issue 4.7",
        "Issue 4.7   ",
        "Issue 4.7 draft",
        "Issue 47",
        "1.1 Core Commands........3",
        "Contents ... 3",
        "Contents .... 3  ",
        "Contents ....3 x",
        "\u{212a}ey (Kelvin sign)",
        "",
        "   ",
    ]
}

#[test]
fn headings_agree_with_the_regular_expression() {
    let re = section_regex();
    for line in sample_lines() {
        assert_eq!(has_section_heading(line), re.is_match(line), "line {line:?}");
    }
    let text = sample_lines().join("\n");
    assert_eq!(has_section_heading(&text), re.is_match(&text));
}

#[test]
fn header_parsing_agrees_with_the_regular_expression() {
    for line in sample_lines() {
        assert_eq!(parse_header(line), oracle_parse_header(line), "title {line:?}");
    }
}

#[test]
fn page_cleaning_agrees_with_the_regular_expressions() {
    for line in sample_lines() {
        assert_eq!(clean_page(line), oracle_clean_page(line), "line {line:?}");
    }
    let page = sample_lines().join("\n");
    assert_eq!(clean_page(&page), oracle_clean_page(&page));
    let crlf = sample_lines().join("\r\n");
    assert_eq!(clean_page(&crlf), oracle_clean_page(&crlf));
}

fn assert_same_outline(text: &str) {
    let ours: Vec<Segment> = build_outline(text);
    let expected = oracle_outline(text);
    assert_eq!(ours.len(), expected.len(), "segments of {text:?}");
    for (a, b) in ours.iter().zip(expected.iter()) {
        assert_eq!(a.number, b.number);
        assert_eq!(a.title, b.title);
        assert_eq!(a.start, char_offset(text, b.start));
        assert_eq!(a.end, char_offset(text, b.end));
        assert_eq!(a.breadcrumb, b.breadcrumb);
        let title = b.title.clone().unwrap_or_default();
        let (h, n) = if b.number.is_some() {
            oracle_parse_header(&title)
        } else {
            (None, None)
        };
        assert_eq!(a.header_number, h);
        assert_eq!(a.header_name, n);
    }
}

#[test]
fn outlines_agree_with_the_regular_expression() {
    assert_same_outline(&sample_lines().join("\n"));
    assert_same_outline("3. Command List\nintro\n3.1 Header 255 - Factory set-up and test\nbody\n3.2 Header 254 - Simple poll\nbody two\n4. Next\n4.1.1 Deep\n4.2 Back up\n");
    assert_same_outline("no headings at all");
    assert_same_outline("");
    let long_preamble = format!("{}\n1. First\nbody", "front matter words ".repeat(20));
    assert_same_outline(&long_preamble);
    let short_preamble = "short front matter\n1. First\nbody";
    assert_same_outline(short_preamble);
    assert_same_outline("1.1 é title\n  1.2   spaced   title  \n\n1.3\ttab\r\n1.4 last");
}

#[test]
fn outline_has_preamble_only_when_long_enough() {
    let long_preamble = format!("{}\n1. First\nbody", "x".repeat(200));
    let segs = build_outline(&long_preamble);
    assert_eq!(segs.len(), 2);
    assert_eq!(segs[0].title.as_deref(), Some("Preamble"));
    assert_eq!(segs[0].number, None);
    assert_eq!(segs[0].breadcrumb, vec!["Preamble".to_owned()]);
    assert_eq!(segs[0].start, 0);
    assert_eq!(segs[0].end, 201);
    let short = format!("{}\n1. First\nbody", "x".repeat(199));
    assert_eq!(build_outline(&short).len(), 1);
}

#[test]
fn outline_segments_tile_the_text() {
    let text = "3. A\nx\n3.1 B\ny\n3.1.1 C\nz\n3.2 D\n";
    let segs = build_outline(text);
    assert_eq!(segs.len(), 4);
    assert_eq!(segs[0].start, 0);
    for w in segs.windows(2) {
        assert_eq!(w[0].end, w[1].start);
    }
    assert_eq!(segs[3].end, text.chars().count());
    assert_eq!(
        segs[2].breadcrumb,
        vec!["3 A".to_owned(), "3.1 B".to_owned(), "3.1.1 C".to_owned()]
    );
    assert_eq!(segs[3].breadcrumb, vec!["3 A".to_owned(), "3.2 D".to_owned()]);
}

#[test]
fn cleaning_a_cleaned_page_changes_nothing() {
    let pages = [
        sample_lines().join("\n"),
        sample_lines().join("\r\n"),
        "  a  \n\n b\t\r\nIssue 1.2\n".to_owned(),
        String::new(),
    ];
    for page in pages {
        let once = clean_page(&page);
        assert_eq!(clean_page(&once), once);
        for line in once.lines() {
            assert!(!line.trim().is_empty());
            assert_eq!(clean_page(line), line);
        }
    }
}

#[test]
fn page_lookup_never_goes_backwards() {
    let map = PageMap::from_starts(vec![3, 7, 8, 20]).expect("increasing");
    let mut last = 1;
    for offset in 0..40 {
        let p = map.page_at(offset);
        assert!(p >= last);
        assert!((1..=4).contains(&p));
        last = p;
    }
    let empty = PageMap::from_starts(vec![]).expect("no pages");
    assert_eq!(empty.page_at(0), 1);
    assert_eq!(empty.page_at(55), 1);
}

#[test]
fn formatted_headers_read_back() {
    for (n, name) in [(0u16, "Reset device"), (7, "x"), (254, "Simple poll"), (999, "Request - data")] {
        assert_eq!(
            parse_header(&format!("Header {n} - {name}")),
            (Some(n), Some(name.to_owned()))
        );
    }
}

#[test]
fn breadcrumbs_extend_the_open_headings() {
    let text = "1. A\nx\n1.1 B\ny\n1.1.1 C\nz\n1.2 D\nw\n2. E\n";
    let segs = build_outline(text);
    for w in segs.windows(2) {
        let (prev, next) = (&w[0], &w[1]);
        let parents = &next.breadcrumb[..next.breadcrumb.len() - 1];
        assert_eq!(&prev.breadcrumb[..parents.len()], parents);
    }
    assert_eq!(segs[4].breadcrumb, vec!["2 E".to_owned()]);
}
