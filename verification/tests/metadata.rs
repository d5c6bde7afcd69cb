use cctalk_docs::meta::{base_id, breadcrumb_prefix, doc_meta, part_title, DocMeta};
use cctalk_docs::outline::Segment;
use regex::Regex;

fn meta(part: u8) -> DocMeta {
    DocMeta {
        document: format!("cctalk-part-{part}-v4-7"),
        part,
        part_title: part_title(part),
        doc_version: "4.7".to_owned(),
    }
}

fn segment(number: Option<&str>, title: &str, header: Option<u16>, crumbs: &[&str]) -> Segment {
    Segment {
        number: number.map(str::to_owned),
        title: Some(title.to_owned()),
        start: 0,
        end: 0,
        header_number: header,
        header_name: None,
        breadcrumb: crumbs.iter().map(|s| (*s).to_owned()).collect(),
    }
}

#[test]
fn part_titles_name_each_part() {
    assert_eq!(part_title(1), "Introduction & General Description");
    assert_eq!(part_title(2), "Command Specification");
    assert_eq!(part_title(3), "Appendices & Command Cross-Reference");
    assert_eq!(part_title(4), "FAQ & Application Notes");
    assert_eq!(part_title(0), "ccTalk Generic Specification");
    assert_eq!(part_title(5), "ccTalk Generic Specification");
    assert_eq!(part_title(255), "ccTalk Generic Specification");
}

#[test]
fn doc_meta_reads_part_and_version_from_the_file_name() {
    let m = doc_meta("docs/cctalk-part-2-v4-7.pdf");
    assert_eq!(m.document, "cctalk-part-2-v4-7");
    assert_eq!(m.part, 2);
    assert_eq!(m.part_title, "Command Specification");
    assert_eq!(m.doc_version, "4.7");
}

#[test]
fn doc_meta_without_a_recognisable_name() {
    let m = doc_meta("/tmp/notes.pdf");
    assert_eq!(m.document, "notes");
    assert_eq!(m.part, 0);
    assert_eq!(m.part_title, "ccTalk Generic Specification");
    assert_eq!(m.doc_version, "unknown");

    let root = doc_meta("/");
    assert_eq!(root.document, "");
    assert_eq!(root.doc_version, "unknown");

    let big = doc_meta("cctalk-part-300-v10-12.pdf");
    assert_eq!(big.part, 0);
    assert_eq!(big.doc_version, "10.12");

    let hidden = doc_meta("dir/.part-1-v2-3");
    assert_eq!(hidden.document, ".part-1-v2-3");
    assert_eq!(hidden.part, 1);
    assert_eq!(hidden.doc_version, "2.3");
}

fn oracle_doc_meta(path: &str) -> (String, u8, String) {
    let re = Regex::new(r"part-(\d+)-v(\d+)-(\d+)").expect("valid");
    let stem = std::path::Path::new(path)
        .file_stem()
        .map(|s| s.to_string_lossy().into_owned())
        .unwrap_or_default();
    let (part, version) = re.captures(&stem).map_or_else(
        || (0_u8, "unknown".to_owned()),
        |caps| {
            let part = caps
                .get(1)
                .and_then(|m| m.as_str().parse::<u8>().ok())
                .unwrap_or(0);
            (part, format!("{}.{}", &caps[2], &caps[3]))
        },
    );
    (stem, part, version)
}

#[test]
fn doc_meta_agrees_with_the_regular_expression() {
    let paths = [
        "cctalk-part-1-v4-7.pdf",
        "a/b/cctalk-part-4-v4-7",
        "part-07-v1-2.tar.gz",
        "xpart-3-v1-2part-4-v5-6.pdf",
        "part--v1-2",
        "part-1-v-2",
        "part-1-v2-",
        "part-256-v1-1",
        "part-255-v1-1",
        "part-\u{0663}-v1-1",
        "dir/part-2-v3-4/",
        "..",
        ".",
        "",
        "file.",
    ];
    for p in paths {
        let m = doc_meta(p);
        let (stem, part, version) = oracle_doc_meta(p);
        assert_eq!(m.document, stem, "path {p:?}");
        assert_eq!(m.part, part, "path {p:?}");
        assert_eq!(m.doc_version, version, "path {p:?}");
        assert_eq!(m.part_title, part_title(part));
    }
}

#[test]
fn base_ids_name_part_ordinal_and_section() {
    let m = meta(2);
    let cmd = segment(Some("3.2"), "Header 254 - Simple poll", Some(254), &["3.2 Header 254 - Simple poll"]);
    assert_eq!(base_id(&m, &cmd, 5), "part2-0005-h254");
    let sec = segment(Some("7.8.1"), "Add for Sorter", None, &["7.8.1 Add for Sorter"]);
    assert_eq!(base_id(&m, &sec, 123), "part2-0123-s7_8_1");
    let pre = Segment {
        number: None,
        title: Some("Preamble".to_owned()),
        start: 0,
        end: 0,
        header_number: None,
        header_name: None,
        breadcrumb: vec!["Preamble".to_owned()],
    };
    assert_eq!(base_id(&meta(1), &pre, 0), "part1-0000-preamble");
    assert_eq!(base_id(&meta(0), &sec, 12345), "part0-12345-s7_8_1");
}

#[test]
fn breadcrumb_prefix_shows_the_innermost_heading() {
    let m = meta(2);
    let cmd = segment(Some("3.2"), "Header 254 - Simple poll", Some(254), &["3 Command List", "3.2 Header 254 - Simple poll"]);
    assert_eq!(
        breadcrumb_prefix(&m, &cmd, 0, 3),
        "[Part 2 | 3.2 Header 254 - Simple poll | 1/3]"
    );
    assert_eq!(
        breadcrumb_prefix(&m, &cmd, 2, 3),
        "[Part 2 | 3.2 Header 254 - Simple poll | 3/3]"
    );
    let bare = segment(None, "Loose title", None, &[]);
    assert_eq!(breadcrumb_prefix(&meta(4), &bare, 9, 10), "[Part 4 | Loose title | 10/10]");
    let nothing = Segment {
        number: None,
        title: None,
        start: 0,
        end: 0,
        header_number: None,
        header_name: None,
        breadcrumb: vec![],
    };
    assert_eq!(breadcrumb_prefix(&meta(1), &nothing, 0, 1), "[Part 1 |  | 1/1]");
}

#[test]
fn base_ids_of_different_ordinals_differ() {
    let m = meta(2);
    let sec = segment(Some("1.1"), "Revision", None, &["1.1 Revision"]);
    let ids: Vec<String> = [0, 1, 9, 10, 99, 100, 9999, 10000]
        .iter()
        .map(|&o| base_id(&m, &sec, o))
        .collect();
    for (i, a) in ids.iter().enumerate() {
        for b in &ids[i + 1..] {
            assert_ne!(a, b);
        }
    }
}

#[test]
fn base_ids_of_different_parts_differ() {
    let sec = segment(Some("1.1"), "Revision", None, &["1.1 Revision"]);
    let a = base_id(&meta(1), &sec, 12);
    let b = base_id(&meta(11), &sec, 2);
    let c = base_id(&meta(2), &sec, 12);
    assert_ne!(a, b);
    assert_ne!(a, c);
    assert_eq!(a, "part1-0012-s1_1");
    assert_eq!(b, "part11-0002-s1_1");
}
