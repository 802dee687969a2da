//! Tests of the selector expression engine: the sub-table, color and
//! force-parse grammars, their aggregation, and their diagnostics.

use str2table::error::ErrorType;
use str2table::error::ErrorLevel;
use str2table::error::conflicts::Conflicts;
use str2table::error::keyword_missing::KeywordMissing;
use str2table::error::range_error::RangeErrorKind;
use str2table::setting::LineColumn;
use str2table::setting::input::{validate_force_parse, ForceType};
use str2table::setting::output::{
    validate_export_subtable, validate_export_color, validate_output, OutputColor, OutputFormat,
};

#[test]
fn test_validate_export_subtable() {
    let true_res = (vec![1, 2, 3, 5], vec![2, 3, 4]);

    // normal input
    let result = validate_export_subtable("1-3l,2-4c,5l").unwrap();
    assert_eq!(result, true_res);

    // upper and lower case
    let result = validate_export_subtable("1-3L,2-4C,5l").unwrap();
    assert_eq!(result, true_res);

    // duplicate range, different order
    let result = validate_export_subtable("5l,2-4c,1-2l,1-3l,3-4c").unwrap();
    assert_eq!(result, true_res);

    // invalid range (as a FEATURE)
    let result = validate_export_subtable("1-3l,2-4c,5l,3-2l").unwrap();
    assert_eq!(result, true_res);

    // line only
    let result = validate_export_subtable("1-3l,5l").unwrap();
    assert_eq!(result, (vec![1, 2, 3, 5], vec![]));

    let lc_missing = KeywordMissing::new(None, None, None, "line or column".to_string());

    // lc not specified
    let result = validate_export_subtable("1-3,2-4c,5l");
    assert!(result.is_err());
    let error = result.unwrap_err();
    assert!(error.reason().unwrap().contains(lc_missing.describe().as_str()));

    // invalid lc
    let result = validate_export_subtable("1-3l,2-4g,5l");
    assert!(result.is_err());
    let error = result.unwrap_err();
    assert!(error.reason().unwrap().contains(lc_missing.describe().as_str()));

    // missing number
    let result = validate_export_subtable("1-3l,2-4c,l");
    assert!(result.is_err());
    let error = result.unwrap_err();
    assert!(error.reason().unwrap().contains(
        RangeErrorKind::SingleNumberError.get_reason().as_str(),
    ));

    // not a number
    let result = validate_export_subtable("1a-3l,2-4c,5l");
    assert!(result.is_err());
    let error = result.unwrap_err();
    assert!(error.reason().unwrap().contains(RangeErrorKind::LeftSideError.get_reason().as_str()));

    // missing range end
    let result = validate_export_subtable("1-3l,2-4c,5-l");
    assert!(result.is_err());
    let error = result.unwrap_err();
    assert!(error.reason().unwrap().contains(RangeErrorKind::RightSideError.get_reason().as_str()));

    // random string
    let result = validate_export_subtable("MysticLightQuest");
    assert!(result.is_err());
    let error = result.unwrap_err();
    assert!(error.reason().unwrap().contains("There is more than one error in this part"));
}

#[test]
fn test_validate_export_color() {
    let true_res = (
        vec![
            (1, OutputColor::Red),
            (3, OutputColor::Green),
            (5, OutputColor::Blue),
        ],
        vec![
            (2, OutputColor::Yellow),
            (3, OutputColor::Yellow),
            (4, OutputColor::Yellow),
        ],
    );

    // normal input
    let result = validate_export_color("1rl,3gl,5bl,2-4yc").unwrap();
    assert_eq!(result, true_res);

    // upper and lower case
    let result = validate_export_color("1Rl,3gL,5Bl,2-4yC").unwrap();
    assert_eq!(result, true_res);

    // duplicate range, different order
    let result = validate_export_color("5bl,2-4yc,1rl,3gl,3-4yc,5bl").unwrap();
    assert_eq!(result, true_res);

    // an inverted range binds its whole interval: 4-2yc repeats bindings
    // already present, while 233-0gl paints every line green and collides
    // with the red binding of line 1
    let result = validate_export_color("1rl,3gl,5bl,2-4yc,4-2yc");
    assert_eq!(result.unwrap(), true_res);
    let result = validate_export_color("1rl,3gl,5bl,2-4yc,4-2yc,233-0gl");
    assert!(result.is_err());
    let inverted_conflict = Conflicts::new(ErrorLevel::Error, None, None, None, None);
    let error = result.unwrap_err();
    let reason = error.reason().unwrap();
    assert!(reason.contains(inverted_conflict.describe().as_str()));
    assert!(reason.contains("(1, Red)"));
    assert!(reason.contains("(1, Green)"));

    let lc_missing = KeywordMissing::new(None, None, None, "line or column".to_string());

    // lc not specified
    let result = validate_export_color("1r,3g,5b,2-4y");
    assert!(result.is_err());
    let error = result.unwrap_err();
    assert!(error.reason().unwrap().contains(lc_missing.describe().as_str()));

    // invalid lc
    let result = validate_export_color("1rl,3gg,5bl,2-4yc");
    assert!(result.is_err());
    let error = result.unwrap_err();
    assert!(error.reason().unwrap().contains(lc_missing.describe().as_str()));

    // range conflict
    let result = validate_export_color("1rl,3gl,5bl,2-4yc,3-4xc");
    assert!(result.is_err());
    let error = result.unwrap_err();
    let range_conflict = Conflicts::new(
        ErrorLevel::Error,
        None,
        None,
        None,
        Some(vec!["(3, Yellow)".to_string(), "(3, Green)".to_string()]),
    );
    assert!(error.reason().unwrap().contains(range_conflict.describe().as_str()));

    let invalid_color = KeywordMissing::new(None, None, None, "color".to_string());

    // invalid color
    let result = validate_export_color("1ql,3gl,5bl,2-4yc");
    assert!(result.is_err());
    let error = result.unwrap_err();
    assert!(error.reason().unwrap().contains(invalid_color.describe().as_str()));

    // missing color
    let result = validate_export_color("1rl,3gl,5bl,2-4c");
    assert!(result.is_err());
    let error = result.unwrap_err();
    assert!(error.reason().unwrap().contains(invalid_color.describe().as_str()));

    // missing number
    let result = validate_export_color("1rl,3gl,5bl,yc");
    assert!(result.is_err());
    let error = result.unwrap_err();
    assert!(error.reason().unwrap().contains(
        RangeErrorKind::SingleNumberError.get_reason().as_str(),
    ));

    // not a number
    let result = validate_export_color("1rl,3gl,5bl,2a-4yc");
    assert!(result.is_err());
    let error = result.unwrap_err();
    assert!(error.reason().unwrap().contains(RangeErrorKind::LeftSideError.get_reason().as_str()));

    // missing range end
    let result = validate_export_color("1rl,3gl,5bl,2-yc");
    assert!(result.is_err());
    let error = result.unwrap_err();
    assert!(error.reason().unwrap().contains(RangeErrorKind::RightSideError.get_reason().as_str()));

    // random string
    let result = validate_export_color("MysteryAlwaysByMySide");
    assert!(result.is_err());
    let error = result.unwrap_err();
    assert!(error.reason().unwrap().contains("There is more than one error in this part"));
}

#[test]
fn test_color_conflict_names_both_bindings() {
    let error = validate_export_color("1rl,3gl,5bl,2-4yc,3-4xc").unwrap_err();
    let reason = error.reason().unwrap();
    assert!(reason.contains("(3, Yellow)"));
    assert!(reason.contains("(3, Grey)"));
}

#[test]
fn test_subtable_output_sorted_without_duplicates() {
    let (lines, cols) = validate_export_subtable("5l,1-4l,2-6l,3c,1c").unwrap();
    let mut sorted = lines.clone();
    sorted.sort();
    sorted.dedup();
    assert_eq!(lines, sorted);
    assert_eq!(lines, vec![1, 2, 3, 4, 5, 6]);
    assert_eq!(cols, vec![1, 3]);
}

#[test]
fn test_subtable_order_invariance() {
    let a = validate_export_subtable("1-3l,2-4c,5l").unwrap();
    let b = validate_export_subtable("5l,2-4c,1-3l").unwrap();
    assert_eq!(a, b);
}

#[test]
fn test_subtable_case_insensitive() {
    let a = validate_export_subtable("1-3L,2-4C,5l").unwrap();
    let b = validate_export_subtable("1-3l,2-4c,5l").unwrap();
    assert_eq!(a, b);
}

#[test]
fn test_subtable_inverted_range() {
    let a = validate_export_subtable("1-3l,2-4c,5l,3-2l").unwrap();
    let b = validate_export_subtable("1-3l,2-4c,5l").unwrap();
    assert_eq!(a, b);
}

#[test]
fn test_validate_force_parse() {
    let result = validate_force_parse("1-2li,4lf").unwrap();
    assert_eq!(
        result,
        (
            vec![(1, ForceType::I), (2, ForceType::I), (4, ForceType::F)],
            LineColumn::Line,
        )
    );

    // case-insensitive letters
    let result = validate_force_parse("1-2LI,4lF").unwrap();
    assert_eq!(
        result,
        (
            vec![(1, ForceType::I), (2, ForceType::I), (4, ForceType::F)],
            LineColumn::Line,
        )
    );

    // tokens are trimmed
    let result = validate_force_parse(" 3cs , 5ci ").unwrap();
    assert_eq!(result, (vec![(3, ForceType::S), (5, ForceType::I)], LineColumn::Column));

    // a later token may not name the other axis
    let result = validate_force_parse("1li,2ci");
    assert!(result.is_err());
    let error = result.unwrap_err();
    assert!(error.reason().unwrap().contains("conflict"));

    // the type letter is required on every token
    let result = validate_force_parse("1-2li,4f");
    assert!(result.is_err());
    let type_missing = KeywordMissing::new(None, None, None, "type".to_string());
    let lc_missing = KeywordMissing::new(None, None, None, "line or column".to_string());
    let error = result.unwrap_err();
    let reason = error.reason().unwrap();
    assert!(
        reason.contains(type_missing.describe().as_str())
            || reason.contains(lc_missing.describe().as_str())
    );

    // one index bound to two types is a conflict
    let result = validate_force_parse("1-3li,2lf");
    assert!(result.is_err());
    let error = result.unwrap_err();
    let reason = error.reason().unwrap();
    assert!(reason.contains("(2, I)"));
    assert!(reason.contains("(2, F)"));

    // an expression without an axis letter fails
    let result = validate_force_parse("1-3,2-4");
    assert!(result.is_err());
}

#[test]
fn test_subtable_tokens_are_not_trimmed() {
    // only the force grammar trims its tokens; here the blank breaks
    // the token's shape
    let result = validate_export_subtable("1l, 2c");
    assert!(result.is_err());
    let error = result.unwrap_err();
    assert!(error.reason().unwrap().contains(RangeErrorKind::SingleNumberError.get_reason().as_str()));
}

#[test]
fn test_subtable_numeral_too_large() {
    let result = validate_export_subtable("99999999999999999999999999l");
    assert!(result.is_err());
    let error = result.unwrap_err();
    assert!(error.reason().unwrap().contains(RangeErrorKind::OutOfRange.get_reason().as_str()));
}

#[test]
fn test_inverted_ranges_bind_their_interval() {
    let (lines, cols) = validate_export_subtable("3-2l").unwrap();
    assert_eq!(lines, vec![2, 3]);
    assert_eq!(cols, vec![]);
    let (pairs, axis) = validate_force_parse("3-2li").unwrap();
    assert_eq!(pairs, vec![(2, ForceType::I), (3, ForceType::I)]);
    assert_eq!(axis, LineColumn::Line);
    let (lines, cols) = validate_export_color("4-2yc").unwrap();
    assert_eq!(lines, vec![]);
    assert_eq!(
        cols,
        vec![(2, OutputColor::Yellow), (3, OutputColor::Yellow), (4, OutputColor::Yellow)]
    );
}

#[test]
fn test_force_order_invariance() {
    let a = validate_force_parse("1-2li,4lf").unwrap();
    let b = validate_force_parse("4lf,1-2li").unwrap();
    assert_eq!(a, b);
}

#[test]
fn test_color_order_invariance() {
    let a = validate_export_color("1rl,3gl,5bl,2-4yc").unwrap();
    let b = validate_export_color("2-4yc,5bl,1rl,3gl").unwrap();
    assert_eq!(a, b);
}

#[test]
fn test_validate_output() {
    let (path, format) = validate_output("out.csv").unwrap();
    assert_eq!(path, "out.csv");
    assert_eq!(format, OutputFormat::Csv);
    let (_, format) = validate_output("out.txt").unwrap();
    assert_eq!(format, OutputFormat::Txt);
    let (_, format) = validate_output("books.xlsx").unwrap();
    assert_eq!(format, OutputFormat::Exls);
    let (_, format) = validate_output("books.xls").unwrap();
    assert_eq!(format, OutputFormat::Exls);
    let result = validate_output("notes.doc");
    assert!(result.is_err());
    let error = result.unwrap_err();
    assert!(error.reason().unwrap().contains("not supported"));
}

#[test]
fn test_selector_spans_locate_the_bad_token() {
    let error = validate_export_subtable("1-3l,2-4g,5l").unwrap_err();
    assert_eq!(error.error_arg.as_deref(), Some("2-4g"));
    assert_eq!(error.whole_arg.as_deref(), Some("1-3l,2-4g,5l"));
    assert_eq!(error.error_location, Some((5, 9)));
}

#[test]
fn test_message_severity_threshold() {
    let error = validate_export_subtable("MysticLightQuest").unwrap_err();
    let shown = error.message(ErrorLevel::Error);
    assert!(shown.starts_with("[Error]"));
    assert!(!shown.is_empty());
    let hidden = error.message(ErrorLevel::Fatal);
    assert_eq!(hidden, "");
}
