use linewrap::report::Fragment;
use linewrap::report::Kind;
use linewrap::report::Line;
use linewrap::report::LineType;
use linewrap::report::Report;
use linewrap::report::CSI_RESET;
use linewrap::sink::Sink;
use linewrap::wrap::SubString;
use linewrap::wrap::WrappedReport;

fn plain(raw: &str) -> Fragment {
    Fragment { csi: String::new(), raw: raw.to_string() }
}

fn styled(csi: &str, raw: &str) -> Fragment {
    Fragment { csi: csi.to_string(), raw: raw.to_string() }
}

fn line_of(line_type: LineType, fragments: Vec<Fragment>) -> Line {
    Line { line_type, item_idx: 0, content: fragments }
}

fn one_line_report(line_type: LineType, fragments: Vec<Fragment>) -> Report {
    Report { lines: vec![line_of(line_type, fragments)] }
}

fn triples(wrapped: &WrappedReport) -> Vec<(usize, Vec<(usize, usize, usize)>)> {
    wrapped
        .sub_lines
        .iter()
        .map(|sl| {
            (
                sl.line_idx,
                sl.sub_strings
                    .iter()
                    .map(|ss| (ss.string_idx, ss.char_start, ss.char_end))
                    .collect(),
            )
        })
        .collect()
}

fn buffer_text(sink: &Sink) -> String {
    match sink {
        Sink::Buffer { text } => text.clone(),
        Sink::Stderr { .. } => panic!("expected a buffer sink"),
    }
}

fn slice_chars(raw: &str, start: usize, end: usize) -> String {
    raw.chars().skip(start).take(end - start).collect()
}

// The display width of the characters these tests use: 1 for ASCII
// letters and spaces, 2 for the wide hiragana, 0 for the combining accent.
fn width_of(c: char) -> usize {
    match c {
        '\u{3042}' => 2,
        '\u{301}' => 0,
        _ => 1,
    }
}

#[test]
fn control_char_consumes_no_column() {
    // the bell character has no display width: it never forces a break
    let report = one_line_report(LineType::Normal, vec![plain("ab\u{7}\u{7}\u{7}c")]);
    let wrapped = WrappedReport::new(&report, 4);
    assert_eq!(
        triples(&wrapped),
        vec![(0, vec![(0, 0, 6)])]
    );
}

#[test]
fn hello_world_wraps_into_two_rows() {
    // width 11 gives a 10-column budget: "hello world" (11 columns) breaks
    // after "hello worl"
    let report = one_line_report(LineType::Normal, vec![plain("hello world")]);
    let wrapped = WrappedReport::new(&report, 11);
    assert_eq!(
        triples(&wrapped),
        vec![(0, vec![(0, 0, 10)]), (0, vec![(0, 10, 11)])]
    );
    assert!(!wrapped.sub_lines[0].is_continuation());
    assert!(wrapped.sub_lines[1].is_continuation());
}

#[test]
fn wide_char_breaks_before_last_column() {
    // budget 4; after "abc" three columns are used, and the wide character
    // needs two, so the row breaks one column short of the budget
    let report = one_line_report(LineType::Normal, vec![plain("abc\u{3042}")]);
    let wrapped = WrappedReport::new(&report, 5);
    assert_eq!(
        triples(&wrapped),
        vec![(0, vec![(0, 0, 3)]), (0, vec![(0, 3, 4)])]
    );
}

#[test]
fn exact_fit_does_not_break() {
    // "abcd" fills a 4-column budget exactly: one row
    let report = one_line_report(LineType::Normal, vec![plain("abcd")]);
    let wrapped = WrappedReport::new(&report, 5);
    assert_eq!(triples(&wrapped), vec![(0, vec![(0, 0, 4)])]);
}

#[test]
fn styled_slice_draws_escape_text_reset() {
    let report = one_line_report(LineType::Normal, vec![styled("\x1b[31m", "abc")]);
    let wrapped = WrappedReport::new(&report, 20);
    let mut sink = Sink::Buffer { text: String::new() };
    wrapped.sub_lines[0].draw(&mut sink, &report).unwrap();
    assert_eq!(buffer_text(&sink), format!("\x1b[31mabc{}", CSI_RESET));
}

#[test]
fn unstyled_slice_draws_bare_text() {
    let report = one_line_report(LineType::Normal, vec![plain("abc")]);
    let wrapped = WrappedReport::new(&report, 20);
    let mut sink = Sink::Buffer { text: String::new() };
    wrapped.sub_lines[0].draw(&mut sink, &report).unwrap();
    assert_eq!(buffer_text(&sink), "abc");
}

#[test]
fn margin_counts_on_first_row_only() {
    // budget 5, margin 4: "a" fits the first row, the rest continues with
    // the full budget
    let report = one_line_report(LineType::Title(Kind::Error), vec![plain("abcd")]);
    let wrapped = WrappedReport::new(&report, 6);
    assert_eq!(
        triples(&wrapped),
        vec![(0, vec![(0, 0, 1)]), (0, vec![(0, 1, 4)])]
    );
}

#[test]
fn empty_fragment_yields_vacuous_slice() {
    let report = one_line_report(LineType::Normal, vec![plain("ab"), plain(""), plain("cd")]);
    let wrapped = WrappedReport::new(&report, 5);
    assert_eq!(
        triples(&wrapped),
        vec![(0, vec![(0, 0, 2), (1, 0, 0), (2, 0, 2)])]
    );
}

#[test]
fn cut_can_land_at_a_fragment_boundary() {
    let report = one_line_report(LineType::Normal, vec![plain("abc"), plain("de")]);
    let wrapped = WrappedReport::new(&report, 4);
    // budget 3: "abc" fills the row; "de" must open the next one with an
    // empty closing slice of the first fragment run
    assert_eq!(
        triples(&wrapped),
        vec![(0, vec![(0, 0, 3), (1, 0, 0)]), (0, vec![(1, 0, 2)])]
    );
    assert!(wrapped.sub_lines[1].is_continuation());
}

#[test]
fn zero_width_char_never_breaks() {
    // budget 2: the combining accent adds no column and stays with its row
    let report = one_line_report(LineType::Normal, vec![plain("ae\u{301}b")]);
    let wrapped = WrappedReport::new(&report, 3);
    assert_eq!(
        triples(&wrapped),
        vec![(0, vec![(0, 0, 3)]), (0, vec![(0, 3, 4)])]
    );
}

#[test]
fn oversized_char_is_placed_and_overflows() {
    // budget 1: a two-column character cannot fit, but is placed anyway so
    // the scan always advances
    let report = one_line_report(LineType::Normal, vec![plain("\u{3042}a")]);
    let wrapped = WrappedReport::new(&report, 2);
    assert_eq!(
        triples(&wrapped),
        vec![(0, vec![(0, 0, 1)]), (0, vec![(0, 1, 2)])]
    );
}

#[test]
fn empty_line_yields_one_empty_row() {
    let report = Report { lines: vec![line_of(LineType::Normal, vec![])] };
    let wrapped = WrappedReport::new(&report, 10);
    assert_eq!(triples(&wrapped), vec![(0, vec![])]);
    assert!(!wrapped.sub_lines[0].is_continuation());
}

#[test]
fn reconstitution_over_several_lines() {
    let report = Report {
        lines: vec![
            line_of(
                LineType::Title(Kind::Warning),
                vec![styled("\x1b[33m", "warming up"), plain(" and more text")],
            ),
            line_of(LineType::Normal, vec![plain("a\u{3042}b\u{3042}c la vie")]),
            line_of(LineType::SectionEnd, vec![]),
        ],
    };
    let wrapped = WrappedReport::new(&report, 7);
    for (line_idx, line) in report.lines.iter().enumerate() {
        let full: String = line.content.iter().map(|f| f.raw.as_str()).collect();
        let mut rebuilt = String::new();
        for sl in wrapped.sub_lines.iter().filter(|sl| sl.line_idx == line_idx) {
            for ss in &sl.sub_strings {
                rebuilt.push_str(&slice_chars(
                    &line.content[ss.string_idx].raw,
                    ss.char_start,
                    ss.char_end,
                ));
            }
        }
        assert_eq!(rebuilt, full, "line {} must reconstitute", line_idx);
    }
}

#[test]
fn budget_respected_on_every_row() {
    let report = Report {
        lines: vec![
            line_of(LineType::Title(Kind::Error), vec![plain("abcdefg")]),
            line_of(LineType::Normal, vec![plain("\u{3042}\u{3042}\u{3042}xy")]),
        ],
    };
    let width: u16 = 6;
    let budget = (width - 1) as usize;
    let wrapped = WrappedReport::new(&report, width);
    let mut seen: Vec<usize> = Vec::new();
    for sl in &wrapped.sub_lines {
        let line = &report.lines[sl.line_idx];
        let mut cols: usize = if seen.contains(&sl.line_idx) {
            0
        } else {
            line.line_type.cols()
        };
        seen.push(sl.line_idx);
        for ss in &sl.sub_strings {
            for c in slice_chars(&line.content[ss.string_idx].raw, ss.char_start, ss.char_end)
                .chars()
            {
                cols += width_of(c);
            }
        }
        assert!(cols <= budget, "row exceeds budget: {} > {}", cols, budget);
    }
}

#[test]
fn no_row_is_empty_when_the_line_has_text() {
    let report = Report {
        lines: vec![
            line_of(LineType::Title(Kind::Error), vec![plain("abcdefgh")]),
            line_of(LineType::Normal, vec![plain(""), plain("xyz")]),
        ],
    };
    let wrapped = WrappedReport::new(&report, 6);
    for sl in &wrapped.sub_lines {
        let line = &report.lines[sl.line_idx];
        let total: usize = sl.sub_strings.iter().map(|ss| ss.char_end - ss.char_start).sum();
        assert!(total > 0, "empty row for a line with text: {:?}", line.line_type);
    }
}

#[test]
fn continuation_flag_marks_all_but_the_first_row() {
    let report = one_line_report(LineType::Normal, vec![plain("abcdefghij")]);
    let wrapped = WrappedReport::new(&report, 4);
    for (row, sl) in wrapped.sub_lines.iter().enumerate() {
        assert_eq!(sl.is_continuation(), row != 0);
    }
}

#[test]
fn rebuild_is_structurally_identical() {
    let report = Report {
        lines: vec![
            line_of(LineType::Title(Kind::Error), vec![styled("\x1b[31m", "boom"), plain(" happened")]),
            line_of(LineType::Normal, vec![plain("a\u{3042}b")]),
        ],
    };
    let first = WrappedReport::new(&report, 7);
    let second = WrappedReport::new(&report, 7);
    assert_eq!(first, second);
}

#[test]
fn line_type_queries_follow_the_continuation_flag() {
    let report = one_line_report(LineType::Title(Kind::Error), vec![plain("abcdefgh")]);
    let wrapped = WrappedReport::new(&report, 6);
    assert!(wrapped.sub_lines.len() >= 2);
    let first = &wrapped.sub_lines[0];
    let later = &wrapped.sub_lines[1];
    assert_eq!(first.line_type(&report), LineType::Title(Kind::Error));
    assert_eq!(later.line_type(&report), LineType::Normal);
    assert_eq!(later.src_line_type(&report), LineType::Title(Kind::Error));
    assert_eq!(later.src_line(&report).item_idx, 0);
}

#[test]
fn draw_line_type_emits_badge_once_per_line() {
    let report = one_line_report(LineType::Title(Kind::Error), vec![plain("abcdefgh")]);
    let wrapped = WrappedReport::new(&report, 6);
    let mut sink = Sink::Buffer { text: String::new() };
    wrapped.sub_lines[0].draw_line_type(&mut sink, &report).unwrap();
    assert_eq!(buffer_text(&sink), "err ");
    let mut sink2 = Sink::Buffer { text: String::new() };
    wrapped.sub_lines[1].draw_line_type(&mut sink2, &report).unwrap();
    assert_eq!(buffer_text(&sink2), "");
}

#[test]
fn sub_string_draw_slices_by_characters() {
    let report = one_line_report(LineType::Normal, vec![plain("a\u{3042}b")]);
    let ss = SubString { string_idx: 0, char_start: 1, char_end: 2 };
    let mut sink = Sink::Buffer { text: String::new() };
    ss.draw(&mut sink, &report, 0).unwrap();
    assert_eq!(buffer_text(&sink), "\u{3042}");
}
