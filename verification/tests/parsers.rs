use text_parser::extract::{document_kind, DocumentKind, ExtractHeadline};
use text_parser::parse_docx::parse_docx;
use text_parser::format::{DocumentError, Heading, RawStructruedText};
use text_parser::parse_epub::{headings_from_chapters, parse_epub, EpubChapter};
use text_parser::parse_text as legacy;
use text_parser::route_parser::parse_md::{parse_md, parse_mdorg, parse_org};
use text_parser::route_parser::parse_text::{detect_heading_lines, find_substr_position, parse_text, select_heading_lines};

fn triples(hs: &Vec<Heading>) -> Vec<(String, usize, u8)> {
    hs.iter().map(|h| (h.name.clone(), h.location, h.level)).collect()
}

fn t(name: &str, location: usize, level: u8) -> (String, usize, u8) {
    (name.to_string(), location, level)
}

const BOOK: &str = "Title\n\n第一章 开始\n\nSome text here that is long enough\n\n1. Intro\n\nend";

#[test]
fn plain_text_with_newline_rule_takes_every_short_framed_line() {
    let (heads, raw) = parse_text(BOOK.to_string(), true);
    assert_eq!(raw, BOOK);
    assert_eq!(
        triples(&heads),
        vec![t("第一章 开始", 7, 1), t("Some text here that is long enough", 25, 1), t("1. Intro", 61, 1)]
    );
}

#[test]
fn plain_text_keyword_rule_needs_a_mark_or_a_chapter_pattern() {
    let (heads, _) = parse_text(BOOK.to_string(), false);
    assert_eq!(triples(&heads), vec![t("第一章 开始", 7, 1), t("1. Intro", 61, 1)]);
}

#[test]
fn plain_text_chapter_patterns_hui_and_pin() {
    let text = "x\n\n第三回 相会\n\nbody body\n\n第二品\n\ny";
    let (heads, _) = parse_text(text.to_string(), false);
    assert_eq!(triples(&heads), vec![t("第三回 相会", 3, 1), t("第二品", 32, 1)]);
}

#[test]
fn plain_text_skips_duplicates_long_lines_and_unframed_lines() {
    let long = "1. ".to_string() + &"x".repeat(60);
    let text = format!("a\n\n1. Same\n\n1. Same\n\n{}\n\n甲 stem\n\n2. not framed\nz", long);
    let (heads, _) = parse_text(text.clone(), false);
    assert_eq!(triples(&heads), vec![t("1. Same", 3, 1), t("甲 stem", text.find("甲 stem").unwrap(), 1)]);
}

#[test]
fn plain_text_first_and_last_lines_are_never_headings() {
    let (heads, _) = parse_text("1. a\n\n".to_string(), true);
    assert!(heads.is_empty());
    let (heads, _) = parse_text("".to_string(), true);
    assert!(heads.is_empty());
}

#[test]
fn substring_position_is_a_byte_offset_or_zero() {
    assert_eq!(find_substr_position("第一章 abc", "abc"), 10);
    assert_eq!(find_substr_position("hello", "zz"), 0);
    assert_eq!(find_substr_position("hello", ""), 0);
    assert_eq!(find_substr_position("hello", "llo"), 2);
}

const MD: &str = "# Title\n## Sub\ntext\n### Deep\n#### Four\n##### Five\n#notspace";

#[test]
fn markdown_levels_follow_the_number_of_marks() {
    let r = parse_md(MD.to_string());
    assert_eq!(r.raw_text, MD);
    assert_eq!(
        triples(&r.heads),
        vec![
            t("# Title", 0, 1),
            t("## Sub", 8, 2),
            t("### Deep", 20, 3),
            t("#### Four", 29, 4),
            t("##### Five", 39, 0),
            t("#notspace", 50, 0),
        ]
    );
}

#[test]
fn org_headings_use_stars() {
    let r = parse_org("* A\nbody\n** B\n# not org".to_string());
    assert_eq!(triples(&r.heads), vec![t("* A", 0, 1), t("** B", 9, 2)]);
}

#[test]
fn mark_parser_with_a_longer_mark() {
    let r = parse_mdorg("== a\n==== b\nc".to_string(), "==".to_string());
    assert_eq!(triples(&r.heads), vec![t("== a", 0, 1), t("==== b", 5, 2)]);
}

#[test]
fn document_kind_by_extension() {
    assert_eq!(document_kind("book.txt"), DocumentKind::Text);
    assert_eq!(document_kind("book.epub"), DocumentKind::Epub);
    assert_eq!(document_kind("notes.md"), DocumentKind::Markdown);
    assert_eq!(document_kind("notes.org"), DocumentKind::Markdown);
    assert_eq!(document_kind("paper.pdf"), DocumentKind::Other);
    assert_eq!(document_kind(""), DocumentKind::Other);
}

#[test]
fn extract_text_document() {
    let r = ExtractHeadline("a.txt", BOOK.as_bytes()).unwrap();
    let (heads, raw) = parse_text(BOOK.to_string(), true);
    assert_eq!(triples(&r.heads), triples(&heads));
    assert_eq!(r.raw_text, raw);
}

#[test]
fn extract_org_document_reads_hash_marks() {
    let r = ExtractHeadline("a.org", "* star\n# hash".as_bytes()).unwrap();
    assert_eq!(triples(&r.heads), vec![t("# hash", 7, 1)]);
}

#[test]
fn extract_other_document_is_empty() {
    let r: RawStructruedText = ExtractHeadline("a.pdf", b"whatever").unwrap();
    assert!(r.heads.is_empty());
    assert_eq!(r.raw_text, "");
}

#[test]
fn extract_refuses_invalid_utf8_text() {
    let e = ExtractHeadline("a.txt", &[0x66, 0xff, 0xfe]).unwrap_err();
    assert_eq!(e, DocumentError::InvalidUtf8);
    let e = ExtractHeadline("a.md", &[0xc3]).unwrap_err();
    assert_eq!(e, DocumentError::InvalidUtf8);
}

#[test]
fn extract_refuses_unreadable_epub() {
    assert_eq!(ExtractHeadline("b.epub", b"not a zip").unwrap_err(), DocumentError::InvalidEpub);
    assert!(parse_epub(b"").is_err());
}

fn chapter(title: &str, text: &str, subchapters: Vec<EpubChapter>) -> EpubChapter {
    EpubChapter { title: title.to_string(), text: text.to_string(), subchapters }
}

#[test]
fn epub_levels_rise_after_each_chapter_with_subchapters() {
    let book = vec![
        chapter(
            "One",
            "aa",
            vec![
                chapter("S1", "b", vec![]),
                chapter("S2", "cc", vec![chapter("T1", "d", vec![])]),
                chapter("S3", "e", vec![]),
            ],
        ),
        chapter("Two", "f", vec![]),
    ];
    let r = headings_from_chapters(&book);
    assert_eq!(r.raw_text, "aabccdef");
    assert_eq!(
        triples(&r.heads),
        vec![t("One", 0, 1), t("S1", 2, 2), t("S2", 3, 2), t("T1", 5, 3), t("S3", 6, 3), t("Two", 7, 1)]
    );
}

#[test]
fn epub_fourth_level_repeats_its_parent() {
    let book = vec![chapter(
        "C",
        "c",
        vec![chapter(
            "X",
            "x",
            vec![chapter("Y", "y", vec![chapter("Z1", "1", vec![]), chapter("Z2", "2", vec![])])],
        )],
    )];
    let r = headings_from_chapters(&book);
    assert_eq!(r.raw_text, "cxyyy");
    assert_eq!(
        triples(&r.heads),
        vec![t("C", 0, 1), t("X", 1, 2), t("Y", 2, 3), t("Y", 3, 4), t("Y", 4, 4)]
    );
}

#[test]
fn epub_locations_count_bytes() {
    let book = vec![chapter("一", "中文", vec![]), chapter("二", "x", vec![])];
    let r = headings_from_chapters(&book);
    assert_eq!(triples(&r.heads), vec![t("一", 0, 1), t("二", 6, 1)]);
}

#[test]
fn legacy_parser_places_ascii_headings_by_character() {
    assert!(legacy::heading_lines_placeable("A intro\nbody\n第一章\nB part"));
    let hs = legacy::parse_text("A intro\nbody\n第一章\nB part");
    let got: Vec<(String, usize, u8)> = hs.iter().map(|h| (h.name.clone(), h.location, h.level)).collect();
    assert_eq!(got, vec![t("A intro", 0, 1), t("B part", 17, 1)]);
}

#[test]
fn legacy_parser_chapter_pattern_needs_a_leading_character() {
    assert!(legacy::parse_text_checked("x\nab第二章cd\nz").is_none());
    assert!(!legacy::heading_lines_placeable("x\nab第二章cd\nz"));
    assert!(legacy::parse_text("x\n第二章\nz").is_empty());
}

#[test]
fn legacy_parser_refuses_multibyte_headings() {
    assert!(legacy::parse_text_checked("甲 section\nbody").is_none());
    assert!(legacy::parse_text_checked("九").is_none());
    assert!(legacy::parse_text_checked("body\nmore").unwrap().is_empty());
}

#[test]
fn legacy_substring_position_counts_characters() {
    assert_eq!(legacy::find_substr_position("第一 abc", "abc"), 3);
}

fn crc32(data: &[u8]) -> u32 {
    let mut crc: u32 = 0xFFFF_FFFF;
    for &b in data {
        crc ^= b as u32;
        for _ in 0..8 {
            let mask = (!(crc & 1)).wrapping_add(1);
            crc = (crc >> 1) ^ (0xEDB8_8320 & mask);
        }
    }
    !crc
}

/// An uncompressed ZIP archive holding `files`.
fn stored_zip(files: &[(&str, &str)]) -> Vec<u8> {
    let mut out: Vec<u8> = Vec::new();
    let mut central: Vec<u8> = Vec::new();
    for (name, body) in files {
        let offset = out.len() as u32;
        let crc = crc32(body.as_bytes());
        let size = body.len() as u32;
        out.extend_from_slice(&0x0403_4b50u32.to_le_bytes());
        out.extend_from_slice(&[20, 0, 0, 0, 0, 0, 0, 0, 0, 0]);
        out.extend_from_slice(&crc.to_le_bytes());
        out.extend_from_slice(&size.to_le_bytes());
        out.extend_from_slice(&size.to_le_bytes());
        out.extend_from_slice(&(name.len() as u16).to_le_bytes());
        out.extend_from_slice(&[0, 0]);
        out.extend_from_slice(name.as_bytes());
        out.extend_from_slice(body.as_bytes());
        central.extend_from_slice(&0x0201_4b50u32.to_le_bytes());
        central.extend_from_slice(&[20, 0, 20, 0, 0, 0, 0, 0, 0, 0, 0, 0]);
        central.extend_from_slice(&crc.to_le_bytes());
        central.extend_from_slice(&size.to_le_bytes());
        central.extend_from_slice(&size.to_le_bytes());
        central.extend_from_slice(&(name.len() as u16).to_le_bytes());
        central.extend_from_slice(&[0, 0, 0, 0, 0, 0, 0, 0, 0, 0, 0, 0]);
        central.extend_from_slice(&offset.to_le_bytes());
        central.extend_from_slice(name.as_bytes());
    }
    let cd_offset = out.len() as u32;
    let cd_size = central.len() as u32;
    out.extend_from_slice(&central);
    out.extend_from_slice(&0x0605_4b50u32.to_le_bytes());
    out.extend_from_slice(&[0, 0, 0, 0]);
    out.extend_from_slice(&(files.len() as u16).to_le_bytes());
    out.extend_from_slice(&(files.len() as u16).to_le_bytes());
    out.extend_from_slice(&cd_size.to_le_bytes());
    out.extend_from_slice(&cd_offset.to_le_bytes());
    out.extend_from_slice(&[0, 0]);
    out
}

fn small_epub() -> Vec<u8> {
    stored_zip(&[
        (
            "META-INF/container.xml",
            r#"<?xml version="1.0"?><container version="1.0"><rootfiles><rootfile full-path="OEBPS/content.opf" media-type="application/oebps-package+xml"/></rootfiles></container>"#,
        ),
        (
            "OEBPS/content.opf",
            r#"<?xml version="1.0"?><package><metadata><title>Book</title><language>en</language></metadata><manifest><item id="ncx" href="toc.ncx" media-type="application/x-dtbncx+xml"/><item id="c1" href="c1.xhtml" media-type="application/xhtml+xml"/><item id="c2" href="c2.xhtml" media-type="application/xhtml+xml"/></manifest><spine><itemref idref="c1"/><itemref idref="c2"/></spine></package>"#,
        ),
        (
            "OEBPS/toc.ncx",
            r#"<?xml version="1.0"?><ncx><head><meta name="dtb:depth" content="2"/></head><navMap><navPoint id="n1"><navLabel><text>First</text></navLabel><content src="c1.xhtml"/><navPoint id="n2"><navLabel><text>Inner</text></navLabel><content src="c2.xhtml"/></navPoint></navPoint></navMap></ncx>"#,
        ),
        ("OEBPS/c1.xhtml", "<html><body><p>Hello</p></body></html>"),
        ("OEBPS/c2.xhtml", "<html><body><p>World</p></body></html>"),
    ])
}

#[test]
fn epub_file_headings_follow_its_table_of_contents() {
    let bytes = small_epub();
    let r = parse_epub(&bytes).unwrap();
    assert_eq!(r.raw_text, "HelloWorld");
    assert_eq!(triples(&r.heads), vec![t("First", 0, 1), t("Inner", 5, 2)]);
    let e = ExtractHeadline("book.epub", &bytes).unwrap();
    assert_eq!(triples(&e.heads), triples(&r.heads));
}

fn stands_at(raw: &str, name: &str, loc: usize) -> bool {
    raw.as_bytes().get(loc..loc + name.len()) == Some(name.as_bytes())
}

#[test]
fn every_text_heading_stands_at_its_location() {
    let text = "前言\n\n第一章 起\n\n正文正文\n\n第一章 起\n\n2. 小节\n\n结";
    for use_newline in [true, false] {
        let (heads, raw) = parse_text(text.to_string(), use_newline);
        assert!(!heads.is_empty());
        for h in &heads {
            assert!(stands_at(&raw, &h.name, h.location), "{:?}", h);
        }
    }
}

#[test]
fn every_markdown_heading_stands_at_its_location() {
    let r = parse_md("intro\n# 标题\n## 小节\n# 标题".to_string());
    assert_eq!(r.heads.len(), 3);
    for h in &r.heads {
        assert!(h.name.starts_with('#'));
        assert!(stands_at(&r.raw_text, &h.name, h.location));
    }
    assert_eq!(r.heads[2].location, r.heads[0].location);
}

#[test]
fn epub_headings_come_in_reading_order() {
    let book = vec![
        chapter("A", "一二", vec![chapter("B", "", vec![chapter("C", "x", vec![])]), chapter("D", "yy", vec![])]),
        chapter("E", "z", vec![]),
    ];
    let r = headings_from_chapters(&book);
    let locs: Vec<usize> = r.heads.iter().map(|h| h.location).collect();
    assert_eq!(locs, vec![0, 6, 6, 7, 9]);
    assert!(locs.windows(2).all(|w| w[0] <= w[1]));
    assert!(locs.iter().all(|&l| l <= r.raw_text.len()));
}

#[test]
fn word_files_are_read_but_give_no_headings() {
    assert_eq!(parse_docx(b"not a zip").unwrap_err(), DocumentError::InvalidDocx);
    let docx = stored_zip(&[
        (
            "[Content_Types].xml",
            r#"<?xml version="1.0" encoding="UTF-8" standalone="yes"?><Types xmlns="http://schemas.openxmlformats.org/package/2006/content-types"><Default Extension="xml" ContentType="application/xml"/></Types>"#,
        ),
        (
            "_rels/.rels",
            r#"<?xml version="1.0" encoding="UTF-8" standalone="yes"?><Relationships xmlns="http://schemas.openxmlformats.org/package/2006/relationships"></Relationships>"#,
        ),
        (
            "word/document.xml",
            r#"<?xml version="1.0" encoding="UTF-8" standalone="yes"?><w:document xmlns:w="http://schemas.openxmlformats.org/wordprocessingml/2006/main"><w:body><w:p><w:r><w:t>Hi</w:t></w:r></w:p></w:body></w:document>"#,
        ),
    ]);
    let r = parse_docx(&docx).unwrap();
    assert!(r.heads.is_empty());
    assert_eq!(r.raw_text, "");
}

fn char_lines(text: &str) -> Vec<Vec<char>> {
    text.split('\n').map(|l| l.chars().collect()).collect()
}

fn strings(lines: Vec<Vec<char>>) -> Vec<String> {
    lines.into_iter().map(|l| l.into_iter().collect()).collect()
}

#[test]
fn chapter_marks_decide_set_off_lines_without_a_keyword() {
    let lines = char_lines("top\n\nPrologue\n\n1. Start\n\nPrologue\n\nA long line that has no mark and runs past fifty bytes\n\nend");
    let none = vec![false; lines.len()];
    assert_eq!(strings(select_heading_lines(&lines, &none, false)), vec!["1. Start".to_string()]);
    let mut marks = none.clone();
    marks[2] = true;
    marks[6] = true;
    marks[8] = true;
    marks[10] = true;
    assert_eq!(
        strings(select_heading_lines(&lines, &marks, false)),
        vec!["Prologue".to_string(), "1. Start".to_string()]
    );
    assert_eq!(
        strings(select_heading_lines(&lines, &none, true)),
        vec![
            "Prologue".to_string(),
            "1. Start".to_string(),
            "Prologue".to_string(),
            "A long line that has no mark and runs past fifty bytes".to_string()
        ]
    );
}

#[test]
fn chapter_patterns_mark_lines_as_the_selection_expects() {
    let lines = char_lines("x\n\n第三回 风雨\n\nplain\n\ny");
    assert_eq!(strings(detect_heading_lines(&lines, false)), vec!["第三回 风雨".to_string()]);
    let marks = vec![false, false, true, false, false, false, false];
    assert_eq!(
        strings(select_heading_lines(&lines, &marks, false)),
        strings(detect_heading_lines(&lines, false))
    );
}

#[test]
fn legacy_chapter_marks_add_lines_without_a_keyword() {
    let lines = char_lines("A intro\nbody\nchapter\nB part");
    assert_eq!(
        strings(legacy::select_heading_lines(&lines, &vec![false; 4])),
        vec!["A intro".to_string(), "B part".to_string()]
    );
    assert_eq!(
        strings(legacy::select_heading_lines(&lines, &vec![false, false, true, true])),
        vec!["A intro".to_string(), "chapter".to_string(), "B part".to_string()]
    );
    let chars: Vec<char> = "A intro\nbody\nx第一章\nB part".chars().collect();
    assert_eq!(
        strings(legacy::detect_heading_lines(&chars)),
        vec!["A intro".to_string(), "x第一章".to_string(), "B part".to_string()]
    );
}
