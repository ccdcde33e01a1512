use std::rc::Rc;

use codemap::CodeMap;
use error_reporter::annotation::{overlaps, sort_annotations, Annotation};
use error_reporter::buffer::{StyledBuffer, StyledString};
use error_reporter::group::{group_lines, name_before, PlacedAnnotation};
use error_reporter::layout::{render_annotations, render_source_line};
use error_reporter::reporter::{place_label, render_resolved, ErrorReporter, SpanPlace};
use error_reporter::style::{Level, Style};

fn row_text(row: &Vec<StyledString>) -> String {
    row.iter().map(|s| s.text.clone()).collect()
}

fn texts(rows: &Vec<Vec<StyledString>>) -> Vec<String> {
    rows.iter().map(row_text).collect()
}

fn ann(start: usize, end: usize, primary: bool, label: Option<&str>) -> Annotation {
    Annotation {
        start_col: start,
        end_col: end,
        is_primary: primary,
        is_minimized: false,
        label: label.map(|s| s.to_string()),
    }
}

#[test]
fn empty_span_is_widened() {
    let a = Annotation::from_position(2, 6, 2, 6, true, None);
    assert_eq!(a.start_col, 6);
    assert_eq!(a.end_col, 7);
    assert!(!a.is_minimized);
}

#[test]
fn multi_line_span_is_minimized() {
    let a = Annotation::from_position(1, 3, 4, 1, false, Some("x".to_string()));
    assert_eq!(a.start_col, 3);
    assert_eq!(a.end_col, 4);
    assert!(a.is_minimized);
    assert_eq!(a.label, Some("x".to_string()));
}

#[test]
fn single_line_span_keeps_columns() {
    let a = Annotation::from_position(0, 4, 0, 7, true, None);
    assert_eq!((a.start_col, a.end_col, a.is_minimized), (4, 7, false));
}

#[test]
fn overlap_is_symmetric() {
    let pairs = [
        (ann(0, 14, false, None), ann(7, 8, false, None)),
        (ann(0, 3, false, None), ann(3, 5, false, None)),
        (ann(2, 4, true, None), ann(2, 3, false, None)),
        (ann(10, 12, true, None), ann(0, 4, false, None)),
    ];
    let expected = [true, false, true, false];
    for (i, (a, b)) in pairs.iter().enumerate() {
        assert_eq!(overlaps(a, b), expected[i]);
        assert_eq!(overlaps(a, b), overlaps(b, a));
    }
}

#[test]
fn sort_is_stable_and_idempotent() {
    let v = vec![
        ann(5, 8, false, Some("b")),
        ann(1, 2, false, Some("a")),
        ann(5, 8, true, Some("c")),
        ann(5, 6, false, None),
    ];
    let s = sort_annotations(&v);
    let keys: Vec<(usize, usize, Option<String>)> =
        s.iter().map(|a| (a.start_col, a.end_col, a.label.clone())).collect();
    assert_eq!(
        keys,
        vec![
            (1, 2, Some("a".to_string())),
            (5, 6, None),
            (5, 8, Some("b".to_string())),
            (5, 8, Some("c".to_string())),
        ]
    );
    assert_eq!(sort_annotations(&s), s);
}

#[test]
fn lone_label_follows_underline() {
    let mut b = StyledBuffer::new();
    render_source_line(&mut b, "let foo = bar;", &vec![ann(4, 7, true, Some("here"))], false);
    let rows = b.render();
    assert_eq!(texts(&rows), vec!["let foo = bar;", "    ^^^ here"]);
    assert_eq!(rows[1][1].style, Style::UnderlinePrimary);
    assert_eq!(rows[1][2].text, " here");
    assert_eq!(rows[1][2].style, Style::LabelPrimary);
    assert_eq!(rows[0][1].text, "foo");
    assert_eq!(rows[0][1].style, Style::UnderlinePrimary);
}

#[test]
fn overlapping_labels_hang_below() {
    let mut b = StyledBuffer::new();
    let anns = vec![ann(0, 14, false, Some("fn_span")), ann(7, 8, false, Some("x_span"))];
    render_source_line(&mut b, "fn foo(x: u32) {", &anns, false);
    let rows = texts(&b.render());
    assert_eq!(
        rows,
        vec![
            "fn foo(x: u32) {",
            "--------------",
            "|      |",
            "|      x_span",
            "fn_span",
        ]
    );
}

#[test]
fn unlabeled_only_draws_underlines() {
    let mut b = StyledBuffer::new();
    render_source_line(&mut b, "abc def", &vec![ann(0, 3, false, None), ann(4, 7, true, None)], false);
    assert_eq!(texts(&b.render()), vec!["abc def", "--- ^^^"]);
}

#[test]
fn trailing_label_skipped_when_unlabeled_overlaps() {
    let mut b = StyledBuffer::new();
    let anns = vec![ann(2, 5, true, Some("l")), ann(3, 4, false, None)];
    render_annotations(&mut b, 0, &anns, false);
    let rows = texts(&b.render());
    assert_eq!(rows, vec!["", "  ^-^", "  |", "  l"]);
}

#[test]
fn three_labels_staircase() {
    let mut b = StyledBuffer::new();
    let anns = vec![
        ann(0, 3, false, Some("a")),
        ann(9, 12, true, Some("b")),
        ann(28, 29, false, Some("c")),
    ];
    render_source_line(&mut b, "vec.push(vec.pop().unwrap());", &anns, false);
    let rows = texts(&b.render());
    assert_eq!(
        rows,
        vec![
            "vec.push(vec.pop().unwrap());",
            "---      ^^^                - c",
            "|        |",
            "|        b",
            "a",
        ]
    );
}

#[test]
fn legacy_mode_draws_carets_only() {
    let mut b = StyledBuffer::new();
    render_source_line(&mut b, "abcdef", &vec![ann(1, 4, false, Some("x"))], true);
    let rows = b.render();
    assert_eq!(texts(&rows), vec!["abcdef", " ^~~"]);
    assert_eq!(rows[1][1].style, Style::OldSkoolNote);
    assert_eq!(rows[0].len(), 1);
}

#[test]
fn minimized_annotation_leaves_source_style() {
    let mut b = StyledBuffer::new();
    let a = Annotation::from_position(0, 2, 3, 0, true, None);
    render_source_line(&mut b, "abcd", &vec![a], false);
    let rows = b.render();
    assert_eq!(texts(&rows), vec!["abcd", "  ^"]);
    assert_eq!(rows[0].len(), 1);
    assert_eq!(rows[0][0].style, Style::Quotation);
}

#[test]
fn buffer_writes_and_styles() {
    let mut b = StyledBuffer::new();
    b.puts(2, 3, "héllo", Style::HeaderMsg);
    b.putc(0, 1, 'x', Style::Quotation);
    b.set_style(2, 4, Style::LabelPrimary);
    b.set_style(5, 0, Style::LabelPrimary);
    b.append(0, "yz", Style::Quotation);
    assert_eq!(b.num_lines(), 3);
    let rows = b.render();
    assert_eq!(texts(&rows), vec![" xyz", "", "   héllo"]);
    assert_eq!(rows[2][1].text, "h");
    assert_eq!(rows[2][2].text, "é");
    assert_eq!(rows[2][2].style, Style::LabelPrimary);
    assert_eq!(rows[2][3].text, "llo");
}

#[test]
fn names_order_by_characters() {
    assert!(name_before("a.rs", "b.rs"));
    assert!(!name_before("b.rs", "a.rs"));
    assert!(name_before("ab", "abc"));
    assert!(!name_before("abc", "abc"));
    assert!(!name_before("", ""));
}

fn placed(file: &str, line: usize, col: usize) -> PlacedAnnotation {
    PlacedAnnotation {
        file: file.to_string(),
        line_index: line,
        text: format!("{} line {}", file, line),
        annotation: ann(col, col + 1, false, None),
    }
}

#[test]
fn lines_grouped_by_file_and_number() {
    let entries = vec![
        placed("b.rs", 3, 0),
        placed("a.rs", 7, 1),
        placed("b.rs", 1, 2),
        placed("b.rs", 3, 4),
        placed("a.rs", 7, 1),
    ];
    let lines = group_lines(&entries);
    let keys: Vec<(String, usize, Vec<usize>)> = lines
        .iter()
        .map(|l| (l.file.clone(), l.line_index, l.annotations.iter().map(|a| a.start_col).collect()))
        .collect();
    assert_eq!(
        keys,
        vec![
            ("a.rs".to_string(), 7, vec![1, 1]),
            ("b.rs".to_string(), 1, vec![2]),
            ("b.rs".to_string(), 3, vec![0, 4]),
        ]
    );
    assert_eq!(lines[0].text, "a.rs line 7");
}

#[test]
fn level_words() {
    assert_eq!(Level::Error.to_text(), "error");
    assert_eq!(Level::Warning.to_text(), "warning");
    assert_eq!(Level::Note.to_text(), "note");
    assert_eq!(Level::Help.to_text(), "help");
}

#[test]
fn resolved_render_has_header() {
    let place = SpanPlace {
        file: "m.rs".to_string(),
        start_line: 0,
        start_col: 1,
        end_line: 0,
        end_col: 3,
        text: "xyzw".to_string(),
        position: "m.rs:1:2".to_string(),
    };
    let p = place_label(place, false, Some("note".to_string()));
    let lines = group_lines(&vec![p]);
    let rows = render_resolved(Level::Warning, "look", "m.rs:1:2", &lines, false);
    assert_eq!(texts(&rows), vec!["warning: look", "m.rs:1:2", "xyzw", " -- note"]);
    assert_eq!(rows[0][0].style, Style::Level(Level::Warning));
    assert_eq!(rows[0][1].style, Style::HeaderMsg);
    assert_eq!(rows[1][0].style, Style::LineAndColumn);
}

#[test]
fn end_to_end_labeled_primary() {
    let mut cm = CodeMap::new();
    let file = cm.add_file("test.rs".to_string(), "let foo = bar;\n".to_string());
    let span = file.span.subspan(4, 7);
    let mut r = ErrorReporter::new(Level::Error, "unexpected token".to_string(), span, Rc::new(cm));
    r.span_label(span, Some("here".to_string()));
    let rows = r.render();
    let t = texts(&rows);
    assert_eq!(t.len(), 4);
    assert_eq!(t[0], "error: unexpected token");
    assert_eq!(t[1], "test.rs:1:5: 1:8");
    assert_eq!(t[2], "let foo = bar;");
    assert_eq!(t[3], "    ^^^ here");
    assert_eq!(rows[3][1].style, Style::UnderlinePrimary);
    assert_eq!(rows[3][2].style, Style::LabelPrimary);
}

#[test]
fn end_to_end_empty_span_at_end() {
    let mut cm = CodeMap::new();
    let file = cm.add_file("eof.rs".to_string(), "abcdefghij".to_string());
    let span = file.span.subspan(10, 10);
    let mut r = ErrorReporter::new(Level::Error, "unexpected end".to_string(), span, Rc::new(cm));
    r.span_label(span, None);
    let t = texts(&r.render());
    assert_eq!(t, vec!["error: unexpected end", "eof.rs:1:11", "abcdefghij", "          ^"]);
}

#[test]
fn end_to_end_secondary_and_files() {
    let mut cm = CodeMap::new();
    let b = cm.add_file("b.rs".to_string(), "one\ntwo three\n".to_string());
    let a = cm.add_file("a.rs".to_string(), "alpha".to_string());
    let primary = b.span.subspan(8, 13);
    let mut r = ErrorReporter::new(Level::Error, "bad".to_string(), primary, Rc::new(cm));
    r.span_label(primary, Some("here".to_string()))
        .span_label(b.span.subspan(0, 3), None)
        .span_label(a.span.subspan(1, 3), Some("there".to_string()))
        .span_label(b.span.subspan(2, 6), None);
    let t = texts(&r.render());
    assert_eq!(
        t,
        vec![
            "error: bad",
            "b.rs:2:5: 2:10",
            "alpha",
            " -- there",
            "one",
            "---",
            "two three",
            "    ^^^^^ here",
        ]
    );
}

#[test]
fn end_to_end_legacy_mode() {
    let mut cm = CodeMap::new();
    let file = cm.add_file("l.rs".to_string(), "call(x);".to_string());
    let span = file.span.subspan(5, 6);
    let mut r = ErrorReporter::new(Level::Warning, "unused".to_string(), span, Rc::new(cm));
    r.set_old_school(true);
    r.span_label(span, Some("here".to_string()))
        .span_label(file.span.subspan(0, 4), Some("callee".to_string()));
    let t = texts(&r.render());
    assert_eq!(t, vec!["warning: unused", "l.rs:1:6: 1:7", "call(x);", "^~~~ ^"]);
}

#[test]
fn end_to_end_no_labels_gives_header_only() {
    let mut cm = CodeMap::new();
    let file = cm.add_file("h.rs".to_string(), "abc\ndef".to_string());
    let span = file.span.subspan(5, 6);
    let mut r = ErrorReporter::new(Level::Note, "just a note".to_string(), span, Rc::new(cm));
    let rows = r.render();
    assert_eq!(texts(&rows), vec!["note: just a note", "h.rs:2:2: 2:3"]);
    assert_eq!(rows[1][0].style, Style::LineAndColumn);
    assert_eq!(texts(&r.render()), texts(&rows));
}
