use coverage2lcov::FileCov;
use std::convert::TryFrom;
use std::ops::RangeInclusive;

fn record(file: &str, stmts: usize, miss: usize, pct: u8, secs: Vec<RangeInclusive<usize>>) -> FileCov {
    FileCov {
        file: file.to_string(),
        stmt_count: stmts,
        miss_count: miss,
        covered_percent: pct,
        missed_sections: secs,
    }
}

#[test]
fn single_range_expands_to_nine_lines() {
    let r = FileCov::parse("a.ext   30   8   73%   5-13").unwrap();
    assert_eq!(r, record("a.ext", 30, 8, 73, vec![5..=13]));
    let text = r.to_string();
    let lines: Vec<&str> = text.split('\n').collect();
    assert_eq!(lines.len(), 11);
    assert_eq!(lines[0], "SF:a.ext");
    assert_eq!(lines[1], "DA:5,0");
    assert_eq!(lines[9], "DA:13,0");
    assert_eq!(lines[10], "end_of_record");
}

#[test]
fn mixed_sections_keep_their_order() {
    let r = FileCov::parse("b.ext   45   11   76%   37-45, 60, 73").unwrap();
    assert_eq!(r, record("b.ext", 45, 11, 76, vec![37..=45, 60..=60, 73..=73]));
    let text = r.to_string();
    let da: Vec<&str> = text.lines().filter(|l| l.starts_with("DA:")).collect();
    let mut expected: Vec<String> = (37..=45).map(|n| format!("DA:{},0", n)).collect();
    expected.push("DA:60,0".to_string());
    expected.push("DA:73,0".to_string());
    assert_eq!(da, expected);
}

#[test]
fn unsorted_and_overlapping_sections_are_not_merged() {
    let r = FileCov::parse("d.ext 9 4 55% 7, 2-3, 3").unwrap();
    assert_eq!(r.missed_sections, vec![7..=7, 2..=3, 3..=3]);
    assert_eq!(r.to_string(), "SF:d.ext\nDA:7,0\nDA:2,0\nDA:3,0\nDA:3,0\nend_of_record");
}

#[test]
fn full_coverage_has_no_da_lines() {
    let r = FileCov::parse("c.ext   101   0   100%").unwrap();
    assert_eq!(r, record("c.ext", 101, 0, 100, vec![]));
    assert_eq!(r.to_string(), "SF:c.ext\nend_of_record");
}

#[test]
fn blank_missing_column_is_no_section() {
    let r = FileCov::parse("c.ext 3 1 50%   \t ").unwrap();
    assert!(r.missed_sections.is_empty());
}

#[test]
fn non_data_rows_yield_nothing() {
    for t in [
        "",
        "%",
        "% 4, 10-12",
        "--------------------------------------------------------------",
        "Name                             Stmts   Miss  Cover   Missing",
        "TOTAL 10 2",
        "1 2 3%",
        "   4 5 6%",
        "x.ext 1 2 3x%",
        "x.ext 1 2%",
    ] {
        assert!(FileCov::parse(t).is_none(), "{:?}", t);
    }
}

#[test]
fn file_path_is_trimmed_but_kept_verbatim() {
    let r = FileCov::parse("\t  src/my dir/a.b.rs   12  3  75%").unwrap();
    assert_eq!(r.file, "src/my dir/a.b.rs");
    assert_eq!(r.to_string(), "SF:src/my dir/a.b.rs\nend_of_record");
}

#[test]
fn file_name_may_end_in_digits() {
    let r = FileCov::parse("mod 7 1 2 3%").unwrap();
    assert_eq!(r, record("mod 7", 1, 2, 3, vec![]));
}

#[test]
fn unicode_whitespace_separates_fields() {
    let r = FileCov::parse("e.ext\u{3000}8\u{a0}2 75%\u{2003}1").unwrap();
    assert_eq!(r, record("e.ext", 8, 2, 75, vec![1..=1]));
}

#[test]
fn spaces_around_range_bounds_are_allowed() {
    let r = FileCov::parse("f.ext 10 3 70% 4 - 6").unwrap();
    assert_eq!(r.missed_sections, vec![4..=6]);
}

#[test]
fn malformed_sections_reject_the_row() {
    for t in [
        "g.ext 10 3 70% 4-5-6",
        "g.ext 10 3 70% 4,",
        "g.ext 10 3 70% a-2",
        "g.ext 10 3 70% 4-",
        "g.ext 10 3 70% 5 % 6",
        "g.ext 10 3 70% 99999999999999999999999",
    ] {
        assert!(FileCov::parse(t).is_none(), "{:?}", t);
    }
}

#[test]
fn numbers_out_of_range_reject_the_row() {
    assert!(FileCov::parse("h.ext 10 3 256%").is_none());
    assert!(FileCov::parse("h.ext 99999999999999999999999 3 70%").is_none());
    let r = FileCov::parse("h.ext 10 3 255%").unwrap();
    assert_eq!(r.covered_percent, 255);
}

#[test]
fn reversed_range_is_kept_and_writes_no_lines() {
    let r = FileCov::parse("i.ext 10 3 70% 9-4").unwrap();
    assert_eq!(r.missed_sections, vec![9..=4]);
    assert_eq!(r.to_string(), "SF:i.ext\nend_of_record");
}

#[test]
fn exhausted_range_writes_no_lines() {
    let mut sec = 3usize..=3usize;
    assert_eq!(sec.next(), Some(3));
    let r = record("j.ext", 1, 1, 0, vec![sec, 8..=9]);
    assert_eq!(r.to_string(), "SF:j.ext\nDA:8,0\nDA:9,0\nend_of_record");
}

#[test]
fn block_shape_of_a_built_record() {
    let r = record("k/l.m", 5, 5, 0, vec![1..=2, 10..=10, 0..=1]);
    let text = r.to_string();
    assert!(text.starts_with("SF:k/l.m\n"));
    assert!(text.ends_with("end_of_record"));
    assert_eq!(text.matches("DA:").count(), 2 + 1 + 2);
    assert_eq!(text, "SF:k/l.m\nDA:1,0\nDA:2,0\nDA:10,0\nDA:0,0\nDA:1,0\nend_of_record");
}

#[test]
fn largest_line_number_is_written() {
    let max = usize::MAX;
    let r = record("n.ext", 1, 1, 0, vec![max..=max]);
    assert_eq!(r.to_string(), format!("SF:n.ext\nDA:{},0\nend_of_record", max));
    let row = format!("n.ext 1 1 0% {}", max);
    assert_eq!(FileCov::parse(&row).unwrap().missed_sections, vec![max..=max]);
}

#[test]
fn try_from_error_is_a_message() {
    let e = FileCov::try_from("Name Stmts Miss Cover").unwrap_err();
    assert!(!e.is_empty());
}
