//! Tests of table and line parsing, editing and rendering.

use str2table::table::{Table, generate_parallel_line};
use str2table::tableline::Tableline;
use str2table::tablecell::{Tablecell, FloatSource};
use str2table::tablecellcore::FloatProbe;
use str2table::setting::LineColumn;
use str2table::setting::input::ForceType;
use str2table::setting::output::OutputColor;

/// Gathers the float observations about a fragment with real float
/// arithmetic, as library callers do.
fn probe_of(s: &str) -> FloatProbe {
    match s.parse::<f64>() {
        Err(_) => FloatProbe {
            accepted: false,
            wide_text: String::new(),
            narrow_text: String::new(),
            narrow_infinite: false,
            narrow_nan: false,
            narrow_zero: false,
        },
        Ok(wide) => {
            let narrow = s.parse::<f32>().unwrap();
            FloatProbe {
                accepted: true,
                wide_text: wide.to_string(),
                narrow_text: narrow.to_string(),
                narrow_infinite: narrow.is_infinite(),
                narrow_nan: narrow.is_nan(),
                narrow_zero: narrow == 0.0,
            }
        },
    }
}

struct StdFloats;

impl FloatSource for StdFloats {
    fn probe(&self, s: &str) -> FloatProbe {
        probe_of(s)
    }
}

#[test]
fn table_test_from_string_simple() {
    let s = "1,2223,3\n4,5,6\n7,8,9".to_string();
    let table = Table::from_string(s, ",", "\n", &StdFloats);
    assert_eq!(table.len(), 3);
    assert_eq!(table.get_line(0).unwrap().len(), 3);
    assert_eq!(table.get_line(1).unwrap().len(), 3);
    assert_eq!(table.get_line(2).unwrap().len(), 3);
    assert_eq!(table.get_cell((0, 0)).unwrap().to_string(), "1");
    assert_eq!(table.get_cell((0, 1)).unwrap().to_string(), "2223");
    assert_eq!(table.get_cell((0, 2)).unwrap().to_string(), "3");
    assert_eq!(table.get_cell((1, 0)).unwrap().to_string(), "4");
    assert_eq!(table.get_cell((1, 1)).unwrap().to_string(), "5");
    assert_eq!(table.get_cell((1, 2)).unwrap().to_string(), "6");
    assert_eq!(table.get_cell((2, 0)).unwrap().to_string(), "7");
    assert_eq!(table.get_cell((2, 1)).unwrap().to_string(), "8");
    assert_eq!(table.get_cell((2, 2)).unwrap().to_string(), "9");
}

#[test]
fn tableline_test_from_string_simple() {
    let s = "  a  |  123.456 |  100  ".to_string();
    let line = Tableline::from_string(s, "|", &StdFloats);
    let output = line.debug_string();
    assert_eq!(
        output,
        "| a<str><Black> | 123.456<float><Black> | 100<int><Black> | "
    );
    let s = "  a  |  123.456 |  100  |   |".to_string();
    let line = Tableline::from_string(s, "|", &StdFloats);
    let output = line.debug_string();
    assert_eq!(
        output,
        "| a<str><Black> | 123.456<float><Black> | 100<int><Black> | "
    );
}

#[test]
fn test_from_string_force() {
    let s = "1, 2,x\n,\n".to_string();
    let table = Table::from_string_force(s, ",", "\n");
    // empty lines are kept by the forcing parser
    assert_eq!(table.len(), 3);
    assert_eq!(table.get_cell((0, 0)).unwrap().to_string(), "1");
    assert_eq!(table.get_cell((0, 1)).unwrap().to_string(), "2");
    assert_eq!(table.get_cell((0, 2)).unwrap().to_string(), "x");
    assert_eq!(table.get_line(1).unwrap().len(), 0);
}

#[test]
fn test_from_string_with_force_parse_lines() {
    let s = "1,2\n3,4".to_string();
    let force = (vec![(0, ForceType::S)], LineColumn::Line);
    let table = Table::from_string_with_force_parse(s, ",", "\n", &force, &StdFloats);
    assert_eq!(table.get_cell((0, 0)).unwrap().core.debug_string(), "1<str>");
    assert_eq!(table.get_cell((1, 0)).unwrap().core.debug_string(), "3<int>");
}

#[test]
fn test_from_string_with_force_parse_columns() {
    let s = "1,2\n3,4".to_string();
    let force = (vec![(1, ForceType::S)], LineColumn::Column);
    let table = Table::from_string_with_force_parse(s, ",", "\n", &force, &StdFloats);
    assert_eq!(table.get_cell((0, 0)).unwrap().core.debug_string(), "1<int>");
    assert_eq!(table.get_cell((0, 1)).unwrap().core.debug_string(), "2<str>");
    assert_eq!(table.get_cell((1, 1)).unwrap().core.debug_string(), "4<str>");
}

#[test]
fn test_line_editing() {
    let probe = probe_of("7");
    let mut line = Tableline::new();
    line.push_cell(Tablecell::auto_from("7".to_string(), &probe));
    line.push_cell(Tablecell::force_as_string("x".to_string()));
    assert_eq!(line.len(), 2);
    line.insert_cell(1, Tablecell::force_as_string("y".to_string())).unwrap();
    assert_eq!(line.get_cell(1).unwrap().to_string(), "y");
    let removed = line.remove_cell(0).unwrap();
    assert_eq!(removed.to_string(), "7");
    assert!(line.remove_cell(5).is_err());
    let popped = line.pop_cell().unwrap();
    assert_eq!(popped.to_string(), "x");
    assert_eq!(line.len(), 1);
}

#[test]
fn test_table_editing() {
    let s = "1,2\n3,4\n5,6".to_string();
    let mut table = Table::from_string(s, ",", "\n", &StdFloats);
    let popped = table.pop_lines(2);
    assert_eq!(popped.len(), 2);
    assert_eq!(popped[0].get_cell(0).unwrap().to_string(), "5");
    assert_eq!(table.len(), 1);
    table.push_lines(popped);
    assert_eq!(table.len(), 3);
    table.remove_lines(1, 2).unwrap();
    assert_eq!(table.len(), 1);
    assert!(table.remove_lines(0, 9).is_err());
    let line = Tableline::from_string("8,9".to_string(), ",", &StdFloats);
    table.insert_line(0, line).unwrap();
    assert_eq!(table.get_cell((0, 0)).unwrap().to_string(), "8");
}

#[test]
fn test_get_subtable() {
    let s = "1,2,3\n4,5,6\n7,8,9".to_string();
    let table = Table::from_string(s, ",", "\n", &StdFloats);
    let sub = table.get_subtable((vec![0, 2], vec![1, 2])).unwrap();
    assert_eq!(sub.len(), 2);
    assert_eq!(sub.get_cell((0, 0)).unwrap().to_string(), "2");
    assert_eq!(sub.get_cell((0, 1)).unwrap().to_string(), "3");
    assert_eq!(sub.get_cell((1, 0)).unwrap().to_string(), "8");
    assert_eq!(sub.get_cell((1, 1)).unwrap().to_string(), "9");
}

#[test]
fn test_colors_and_rendering() {
    let s = "1,2\n3,4".to_string();
    let mut table = Table::from_string(s, ",", "\n", &StdFloats);
    table.set_color_line(0, OutputColor::Red);
    table.set_color_column(1, OutputColor::Blue);
    let cell = table.get_cell((0, 0)).unwrap();
    assert_eq!(cell.to_string(), "\u{1b}[31m1\u{1b}[0m");
    let cell = table.get_cell((0, 1)).unwrap();
    assert_eq!(cell.to_string(), "\u{1b}[34m2\u{1b}[0m");
    let cell = table.get_cell((1, 1)).unwrap();
    assert_eq!(cell.to_string(), "\u{1b}[34m4\u{1b}[0m");
    let line = table.get_line(1).unwrap();
    assert_eq!(line.to_string_raw(','), "3, 4, ");
    assert_eq!(line.to_string_format(';'), "3; \u{1b}[34m4\u{1b}[0m; ");
}

#[test]
fn test_line_display_rendering() {
    let line = Tableline::from_string("ab|c".to_string(), "|", &StdFloats);
    let widths = vec![3, 2];
    let out = line.to_string_display(&widths).unwrap();
    assert_eq!(out, "\u{1b}[90m|\u{1b}[0m ab  \u{1b}[90m|\u{1b}[0m c  \u{1b}[90m|\u{1b}[0m ");
    let narrow = vec![1, 1];
    assert!(line.to_string_display(&narrow).is_err());
    let empty = Tableline::new();
    assert!(empty.to_string_display(&widths).is_err());
}

#[test]
fn test_longest_row_and_parallel_line() {
    let s = "1,2,3\n4\n5,6".to_string();
    let table = Table::from_string(s, ",", "\n", &StdFloats);
    assert_eq!(table.get_longest_row(), 3);
    assert_eq!(generate_parallel_line(2), "\u{1b}[90m+----");
}

#[test]
fn test_end_line_without_newline_strips_newlines() {
    let s = "1,2;3\n,4".to_string();
    let table = Table::from_string(s, ",", ";", &StdFloats);
    assert_eq!(table.len(), 2);
    assert_eq!(table.get_cell((1, 0)).unwrap().to_string(), "3");
    assert_eq!(table.get_cell((1, 1)).unwrap().to_string(), "4");
}
