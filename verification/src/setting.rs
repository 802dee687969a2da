//! Settings: the selector mini-language used to address table lines and
//! columns, for forcing cell types, coloring output and extracting
//! sub-tables.

pub mod input;
pub mod output;
pub mod select;

use vstd::prelude::*;

verus! {

/// Whether a selector token addresses a table line (row) or a column.
#[derive(Debug, Clone, Copy, PartialEq, Eq, Structural)]
pub enum LineColumn {
    Line,
    Column,
}

/// The axis selected by an axis letter: `l`/`L` for lines, `c`/`C` for
/// columns.
pub open spec fn axis_of(c: char) -> LineColumn {
    if c == 'l' || c == 'L' {
        LineColumn::Line
    } else {
        LineColumn::Column
    }
}

/// True for the four axis letters.
pub open spec fn is_axis_char(c: char) -> bool {
    c == 'l' || c == 'c' || c == 'L' || c == 'C'
}

impl LineColumn {
    /// Decodes an axis letter, case-insensitively; also accepts the full
    /// words `Line` and `Column`.
    pub fn from_str(s: &str) -> (r: Result<LineColumn, ()>)
        ensures
            r == (if s@ == "l"@ || s@ == "L"@ || s@ == "Line"@ {
                Result::<LineColumn, ()>::Ok(LineColumn::Line)
            } else if s@ == "c"@ || s@ == "C"@ || s@ == "Column"@ {
                Result::<LineColumn, ()>::Ok(LineColumn::Column)
            } else {
                Result::<LineColumn, ()>::Err(())
            }),
    {
        let t = s.to_owned();
        if t == String::from_str("l") || t == String::from_str("L") || t == String::from_str(
            "Line",
        ) {
            Ok(LineColumn::Line)
        } else if t == String::from_str("c") || t == String::from_str("C") || t
            == String::from_str("Column") {
            Ok(LineColumn::Column)
        } else {
            Err(())
        }
    }

    /// Decodes an axis letter character.
    pub fn from_char(c: char) -> (r: LineColumn)
        requires
            is_axis_char(c),
        ensures
            r == axis_of(c),
    {
        if c == 'l' || c == 'L' {
            LineColumn::Line
        } else {
            LineColumn::Column
        }
    }
}

} // verus!
