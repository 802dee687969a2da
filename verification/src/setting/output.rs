//! Output settings: the sub-table and color selector expressions, and the
//! output-path format check.

use vstd::prelude::*;
use vstd::string::{StrSliceExecFns, StringExecFns, StringSliceAdditionalSpecFns};
use crate::error::ErrorLevel;
use crate::error::arg_error::{ArgError, ArgErrorKind, kind_name, kind_description};
use crate::error::range_error::RangeErrorKind;
use crate::setting::LineColumn;
use crate::setting::axis_of;
use crate::setting::is_axis_char;
use crate::setting::select::{
    ArgErrSpec, arg_error_is, wrong_format_err, range_err, keyword_err, dup_conflict_err,
    err_wrong_format, err_range, err_keyword, err_dup_conflict, pair_string, digit_run,
    digit_run_end, last_index_of, last_char_before, clean_between, digits_between, idx_insert,
    idx_insert_pos, idx_expand, idx_expand_from, idx_sorted, idx_distinct, lemma_idx_insert_pos,
    lemma_idx_insert, lemma_idx_expand, insert_pos, insert_pair, expand_insert, expand_insert_from,
    pairs_sorted, pairs_distinct,
    first_conflict, lemma_insert_pos, lemma_insert_pair, lemma_expand_insert, lemma_first_conflict,
    off_plain, lemma_off_plain_bound,
};
use crate::text::{
    is_digit, digits_in, clean_in, dec_val, len_sum, dec_of_nat, parse_dec, lemma_split_len_sum,
    lemma_len_sum_nonneg, split_of, split_str,
};

verus! {

/* ------------------------------- enums ------------------------------- */

/// The output file formats that can be inferred from a path suffix.
#[derive(Debug, Clone, Copy, PartialEq, Eq, Structural)]
pub enum OutputFormat {
    Csv,
    Txt,
    Exls,
}

/// The colors a line or column can be given.
#[derive(Debug, Clone, Copy, PartialEq, Eq, Structural)]
pub enum OutputColor {
    Black,
    Red,
    Green,
    Blue,
    Yellow,
    Grey,
    White,
}

/// True for the twelve color letters.
pub open spec fn is_color_char(c: char) -> bool {
    c == 'r' || c == 'g' || c == 'b' || c == 'y' || c == 'x' || c == 'w' || c == 'R' || c == 'G'
        || c == 'B' || c == 'Y' || c == 'X' || c == 'W'
}

/// The color selected by a color letter.
pub open spec fn color_of(c: char) -> OutputColor {
    if c == 'r' || c == 'R' {
        OutputColor::Red
    } else if c == 'g' || c == 'G' {
        OutputColor::Green
    } else if c == 'b' || c == 'B' {
        OutputColor::Blue
    } else if c == 'y' || c == 'Y' {
        OutputColor::Yellow
    } else if c == 'x' || c == 'X' {
        OutputColor::Grey
    } else {
        OutputColor::White
    }
}

/// The name of a color, as diagnostics and renderings spell it.
pub open spec fn color_name(c: OutputColor) -> Seq<char> {
    match c {
        OutputColor::Black => "Black"@,
        OutputColor::Red => "Red"@,
        OutputColor::Green => "Green"@,
        OutputColor::Blue => "Blue"@,
        OutputColor::Yellow => "Yellow"@,
        OutputColor::Grey => "Grey"@,
        OutputColor::White => "White"@,
    }
}

impl OutputColor {
    /// Decodes a color letter, case-insensitively.
    pub fn from_char(c: char) -> (r: OutputColor)
        requires
            is_color_char(c),
        ensures
            r == color_of(c),
    {
        if c == 'r' || c == 'R' {
            OutputColor::Red
        } else if c == 'g' || c == 'G' {
            OutputColor::Green
        } else if c == 'b' || c == 'B' {
            OutputColor::Blue
        } else if c == 'y' || c == 'Y' {
            OutputColor::Yellow
        } else if c == 'x' || c == 'X' {
            OutputColor::Grey
        } else {
            OutputColor::White
        }
    }

    /// Decodes a one-letter color code.
    pub fn from_str(s: &str) -> (r: Result<OutputColor, ()>)
        ensures
            r matches Ok(c) ==> s@.len() == 1 && is_color_char(s@[0]) && c == color_of(s@[0]),
            r is Err ==> !(s@.len() == 1 && is_color_char(s@[0])),
    {
        if s.unicode_len() != 1 {
            return Err(());
        }
        let c = s.get_char(0);
        if c == 'r' || c == 'R' || c == 'g' || c == 'G' || c == 'b' || c == 'B' || c == 'y' || c
            == 'Y' || c == 'x' || c == 'X' || c == 'w' || c == 'W' {
            Ok(OutputColor::from_char(c))
        } else {
            Err(())
        }
    }

    /// The name of this color.
    pub fn to_string(&self) -> (r: String)
        ensures
            r@ == color_name(*self),
    {
        match self {
            OutputColor::Black => String::from_str("Black"),
            OutputColor::Red => String::from_str("Red"),
            OutputColor::Green => String::from_str("Green"),
            OutputColor::Blue => String::from_str("Blue"),
            OutputColor::Yellow => String::from_str("Yellow"),
            OutputColor::Grey => String::from_str("Grey"),
            OutputColor::White => String::from_str("White"),
        }
    }
}

impl Default for OutputColor {
    /// The default color is black.
    fn default() -> (r: Self)
        ensures
            r == OutputColor::Black,
    {
        OutputColor::Black
    }
}

/* --------------------------- output format --------------------------- */

/// The path suffix after the last dot; the whole path when it has none.
pub open spec fn path_suffix(s: Seq<char>) -> Seq<char> {
    s.subrange(last_index_of(s, '.', s.len() as int) + 1, s.len() as int)
}

/// The output format a path suffix names, if any.
pub open spec fn format_of_suffix(sfx: Seq<char>) -> Option<OutputFormat> {
    if sfx == "csv"@ {
        Some(OutputFormat::Csv)
    } else if sfx == "txt"@ {
        Some(OutputFormat::Txt)
    } else if sfx == "xls"@ || sfx == "xlsx"@ {
        Some(OutputFormat::Exls)
    } else {
        None
    }
}

/// The diagnostic for an unsupported output suffix.
pub open spec fn format_err(sfx: Seq<char>, whole: Seq<char>) -> ArgErrSpec {
    ArgErrSpec {
        name: kind_name(ArgErrorKind::FormatError),
        description: kind_description(ArgErrorKind::FormatError),
        level: ErrorLevel::Error,
        reason: Some("The format of the file is not supported."@),
        error_arg: Some(sfx),
        whole_arg: Some(whole),
        location: None,
        hint: None,
    }
}

/// Reads the output format off the suffix of a path: `csv`, `txt`, `xls`
/// or `xlsx`; any other suffix is rejected.
pub fn validate_output(s: &str) -> (r: Result<(String, OutputFormat), ArgError>)
    ensures
        r matches Ok(p) ==> p.0@ == s@ && format_of_suffix(path_suffix(s@)) == Some(p.1),
        r matches Err(e) ==> format_of_suffix(path_suffix(s@)) is None && arg_error_is(
            e,
            format_err(path_suffix(s@), s@),
        ),
{
    let n = s.unicode_len();
    let start: usize = match last_char_before(s, '.', n) {
        Some(d) => d + 1,
        None => 0,
    };
    proof {
        crate::setting::select::lemma_last_index_of(s@, '.', n as int);
    }
    let sfx = s.substring_char(start, n);
    let sfx_string = sfx.to_owned();
    let format: OutputFormat = if sfx_string == String::from_str("csv") {
        OutputFormat::Csv
    } else if sfx_string == String::from_str("txt") {
        OutputFormat::Txt
    } else if sfx_string == String::from_str("xls") || sfx_string == String::from_str("xlsx") {
        OutputFormat::Exls
    } else {
        return Err(
            ArgError::new(
                ArgErrorKind::FormatError,
                Some(String::from_str("The format of the file is not supported.")),
                Some(sfx_string),
                Some(String::from_str(s)),
                None,
                None,
            ),
        );
    };
    Ok((String::from_str(s), format))
}

/* ----------------------- sub-table token grammar ---------------------- */

/// Well-formed range: digits, a dash, digits, an axis letter.
pub open spec fn sub_cat0(t: Seq<char>) -> bool {
    let n = t.len() as int;
    let j = digit_run(t, 0);
    n >= 2 && is_axis_char(t[n - 1]) && j >= 1 && t[j] == '-' && j + 1 < n - 1 && digit_run(
        t,
        j + 1,
    ) == n - 1
}

/// Well-formed single: digits, an axis letter.
pub open spec fn sub_cat1(t: Seq<char>) -> bool {
    let n = t.len() as int;
    n >= 2 && is_axis_char(t[n - 1]) && digit_run(t, 0) == n - 1
}

/// Malformed left bound: something, a dash, digits, an axis letter.
pub open spec fn sub_cat2(t: Seq<char>) -> bool {
    let n = t.len() as int;
    let d = last_index_of(t, '-', n - 1);
    n >= 2 && is_axis_char(t[n - 1]) && d >= 0 && d + 1 < n - 1 && digits_in(t, d + 1, n - 1)
        && clean_in(t, 0, d)
}

/// Malformed right bound: digits, a dash, something, an axis letter.
pub open spec fn sub_cat3(t: Seq<char>) -> bool {
    let n = t.len() as int;
    let j = digit_run(t, 0);
    n >= 2 && is_axis_char(t[n - 1]) && j >= 1 && j < n - 1 && t[j] == '-' && clean_in(
        t,
        j + 1,
        n - 1,
    )
}

/// Malformed on both sides of the dash.
pub open spec fn sub_cat4(t: Seq<char>) -> bool {
    let n = t.len() as int;
    n >= 2 && is_axis_char(t[n - 1]) && last_index_of(t, '-', n - 1) >= 0 && clean_in(t, 0, n - 1)
}

/// Malformed single number before the axis letter.
pub open spec fn sub_cat5(t: Seq<char>) -> bool {
    let n = t.len() as int;
    n >= 1 && is_axis_char(t[n - 1]) && clean_in(t, 0, n - 1)
}

/// Axis letter missing after a range.
pub open spec fn sub_cat6(t: Seq<char>) -> bool {
    let n = t.len() as int;
    let j = digit_run(t, 0);
    let k = digit_run(t, j + 1);
    j >= 1 && j < n && t[j] == '-' && k > j + 1 && clean_in(t, k, n)
}

/// Axis letter missing after a single number.
pub open spec fn sub_cat7(t: Seq<char>) -> bool {
    let n = t.len() as int;
    n >= 1 && is_digit(t[0]) && clean_in(t, 1, n)
}

/// The first matching category of the ordered sub-table grammar, or `-1`
/// when none matches.
pub open spec fn sub_cat(t: Seq<char>) -> int {
    if sub_cat0(t) {
        0
    } else if sub_cat1(t) {
        1
    } else if sub_cat2(t) {
        2
    } else if sub_cat3(t) {
        3
    } else if sub_cat4(t) {
        4
    } else if sub_cat5(t) {
        5
    } else if sub_cat6(t) {
        6
    } else if sub_cat7(t) {
        7
    } else {
        -1
    }
}

/// Classifies one sub-table token against the ordered categories.
fn classify_subtable(t: &str) -> (c: i32)
    ensures
        c == sub_cat(t@),
{
    let n = t.unicode_len();
    if n == 0 {
        return -1;
    }
    let last = t.get_char(n - 1);
    let ax = last == 'l' || last == 'c' || last == 'L' || last == 'C';
    let j = digit_run_end(t, 0);
    let c0 = ax && n >= 2 && j >= 1 && j + 1 < n - 1 && t.get_char(j) == '-' && digit_run_end(
        t,
        j + 1,
    ) == n - 1;
    if c0 {
        return 0;
    }
    let c1 = ax && n >= 2 && j == n - 1;
    if c1 {
        return 1;
    }
    let dash = last_char_before(t, '-', n - 1);
    let c2 = ax && n >= 2 && match dash {
        Some(d) => d + 1 < n - 1 && digits_between(t, d + 1, n - 1) && clean_between(t, 0, d),
        None => false,
    };
    proof {
        crate::setting::select::lemma_last_index_of(t@, '-', n - 1);
    }
    if c2 {
        return 2;
    }
    let c3 = ax && n >= 2 && j >= 1 && j < n - 1 && t.get_char(j) == '-' && clean_between(
        t,
        j + 1,
        n - 1,
    );
    if c3 {
        return 3;
    }
    let c4 = ax && n >= 2 && dash.is_some() && clean_between(t, 0, n - 1);
    if c4 {
        return 4;
    }
    let c5 = ax && clean_between(t, 0, n - 1);
    if c5 {
        return 5;
    }
    let c6 = j >= 1 && j < n && t.get_char(j) == '-' && {
        let k = digit_run_end(t, j + 1);
        k > j + 1 && clean_between(t, k, n)
    };
    if c6 {
        return 6;
    }
    let first = t.get_char(0);
    let c7 = 48 <= (first as u32) && (first as u32) <= 57 && clean_between(t, 1, n);
    if c7 {
        return 7;
    }
    -1
}

/* ------------------------ sub-table aggregation ----------------------- */

/// One step of the sub-table aggregator: classify token `k`, abort on the
/// first malformed token, else route its indices into the line or column
/// bucket and continue.
pub open spec fn sub_run(
    parts: Seq<Seq<char>>,
    k: int,
    lines: Seq<usize>,
    cols: Seq<usize>,
    off: int,
    whole: Seq<char>,
) -> Result<(Seq<usize>, Seq<usize>), ArgErrSpec>
    decreases parts.len() - k,
{
    if k < 0 || k >= parts.len() {
        Ok((lines, cols))
    } else {
        let t = parts[k];
        let n = t.len() as int;
        let span = (off, off + t.len());
        let c = sub_cat(t);
        if c == -1 {
            Err(wrong_format_err("There is more than one error in this part"@, t, whole, Some(span)))
        } else if c == 0 {
            let j = digit_run(t, 0);
            let sv = dec_val(t.subrange(0, j));
            let ev = dec_val(t.subrange(j + 1, n - 1));
            if sv > usize::MAX || ev > usize::MAX {
                Err(range_err(RangeErrorKind::OutOfRange, t, whole, span))
            } else if axis_of(t[n - 1]) == LineColumn::Line {
                sub_run(parts, k + 1, idx_expand(lines, sv, ev), cols, off + t.len() + 1, whole)
            } else {
                sub_run(parts, k + 1, lines, idx_expand(cols, sv, ev), off + t.len() + 1, whole)
            }
        } else if c == 1 {
            let v = dec_val(t.subrange(0, n - 1));
            if v > usize::MAX {
                Err(range_err(RangeErrorKind::OutOfRange, t, whole, span))
            } else if axis_of(t[n - 1]) == LineColumn::Line {
                sub_run(parts, k + 1, idx_insert(lines, v as usize), cols, off + t.len() + 1, whole)
            } else {
                sub_run(parts, k + 1, lines, idx_insert(cols, v as usize), off + t.len() + 1, whole)
            }
        } else if c == 2 {
            Err(range_err(RangeErrorKind::LeftSideError, t, whole, span))
        } else if c == 3 {
            Err(range_err(RangeErrorKind::RightSideError, t, whole, span))
        } else if c == 4 {
            Err(range_err(RangeErrorKind::BothSidesError, t, whole, span))
        } else if c == 5 {
            Err(range_err(RangeErrorKind::SingleNumberError, t, whole, span))
        } else {
            Err(keyword_err("line or column"@, t, whole, Some(span)))
        }
    }
}

/// What a sub-table selector expression denotes: the ordered line and
/// column index sets, or the diagnostic of its first malformed token.
pub open spec fn subtable_model(s: Seq<char>) -> Result<(Seq<usize>, Seq<usize>), ArgErrSpec> {
    sub_run(split_of(s, ","@), 0, Seq::empty(), Seq::empty(), 0, s)
}

/// Strictly ascending indices.
pub open spec fn idx_strict(r: Seq<usize>) -> bool {
    forall|i: int, j: int| 0 <= i < j < r.len() ==> (#[trigger] r[i]) < (#[trigger] r[j])
}

/// Inserts an index into an ordered, duplicate-free vector.
fn insert_index(v: &mut Vec<usize>, x: usize)
    requires
        idx_sorted(old(v)@),
        idx_distinct(old(v)@),
    ensures
        final(v)@ == idx_insert(old(v)@, x),
        idx_sorted(final(v)@),
        idx_distinct(final(v)@),
{
    proof {
        lemma_idx_insert(old(v)@, x);
    }
    let mut pos: usize = 0;
    loop
        invariant
            pos <= v@.len(),
            v@ == old(v)@,
            idx_sorted(v@),
            idx_distinct(v@),
            forall|k: int| 0 <= k < pos ==> (#[trigger] v@[k]) < x,
        ensures
            pos <= v@.len(),
            v@ == old(v)@,
            forall|k: int| 0 <= k < pos ==> (#[trigger] v@[k]) < x,
            pos < v@.len() ==> v@[pos as int] >= x,
        decreases v@.len() - pos,
    {
        if pos >= v.len() {
            break;
        }
        let y = v[pos];
        if y >= x {
            break;
        }
        pos = pos + 1;
    }
    if pos < v.len() && v[pos] == x {
        proof {
            assert(old(v)@.contains(x)) by {
                assert(old(v)@[pos as int] == x);
            }
        }
        return;
    }
    proof {
        assert(!old(v)@.contains(x)) by {
            if old(v)@.contains(x) {
                let k = choose|k: int| 0 <= k < old(v)@.len() && old(v)@[k] == x;
                if k < pos {
                    assert(old(v)@[k] < x);
                } else {
                    assert(old(v)@[pos as int] <= old(v)@[k]);
                }
            }
        }
        assert(idx_insert_pos(old(v)@, x) == pos as int) by {
            lemma_idx_insert_pos(old(v)@, x);
            let p = idx_insert_pos(old(v)@, x);
            if p < pos {
                assert(old(v)@[p] < x);
                assert(old(v)@[p] > x);
            }
            if p > pos {
                assert(pos < old(v)@.len());
                assert(old(v)@[pos as int] <= x);
                assert(old(v)@[pos as int] >= x);
                assert(old(v)@[pos as int] == x);
                assert(old(v)@.contains(x)) by {
                    assert(old(v)@[pos as int] == x);
                }
            }
        }
    }
    v.insert(pos, x);
    proof {
        assert(v@ =~= old(v)@.take(pos as int) + seq![x] + old(v)@.skip(pos as int));
        lemma_idx_insert(old(v)@, x);
    }
}

/// Inserts every index between `start` and `end`, taken as an unordered
/// pair: an inverted range covers the same interval.
fn insert_index_range(v: &mut Vec<usize>, start: usize, end: usize)
    requires
        idx_sorted(old(v)@),
        idx_distinct(old(v)@),
    ensures
        final(v)@ == idx_expand(old(v)@, start as int, end as int),
        idx_sorted(final(v)@),
        idx_distinct(final(v)@),
{
    let lo = if start <= end {
        start
    } else {
        end
    };
    let hi = if start <= end {
        end
    } else {
        start
    };
    let mut x = lo;
    loop
        invariant_except_break
            idx_expand_from(old(v)@, lo as int, hi as int) == idx_expand_from(
                v@,
                x as int,
                hi as int,
            ),
        invariant
            lo <= x <= hi,
            idx_sorted(v@),
            idx_distinct(v@),
        ensures
            v@ == idx_expand_from(old(v)@, lo as int, hi as int),
            idx_sorted(v@),
            idx_distinct(v@),
        decreases hi - x,
    {
        let ghost before = v@;
        insert_index(v, x);
        proof {
            assert(idx_expand_from(before, x as int, hi as int) == idx_expand_from(
                idx_insert(before, x),
                x as int + 1,
                hi as int,
            ));
        }
        if x == hi {
            proof {
                assert(idx_expand_from(v@, x as int + 1, hi as int) == v@);
            }
            break;
        }
        x = x + 1;
    }
}

/// Decodes a sub-table selector expression: comma-separated tokens, each
/// a number or range followed by an axis letter. Yields the selected
/// line and column indices, each set strictly ascending, or the
/// diagnostic of the first malformed token.
pub fn validate_export_subtable(s: &str) -> (r: Result<(Vec<usize>, Vec<usize>), ArgError>)
    ensures
        r matches Ok(p) ==> subtable_model(s@) == Ok::<(Seq<usize>, Seq<usize>), ArgErrSpec>(
            (p.0@, p.1@),
        ),
        r matches Ok(p) ==> idx_strict(p.0@) && idx_strict(p.1@),
        r matches Err(e) ==> subtable_model(s@) matches Err(m) && arg_error_is(e, m),
{
    proof {
        reveal_strlit(",");
        assert(","@ =~= seq![',']);
    }
    let parts = split_str(s, ",");
    let ghost pseq = parts.deep_view();
    let total = s.unicode_len();
    proof {
        lemma_split_len_sum(s@, ","@);
        assert(len_sum(pseq) + (pseq.len() - 1) * 1 == s@.len());
        crate::text::lemma_split_len(s@, ","@);
    }
    let mut lines: Vec<usize> = Vec::new();
    let mut cols: Vec<usize> = Vec::new();
    let mut location: usize = 0;
    let mut i: usize = 0;
    let m = parts.len();
    let ghost goal = subtable_model(s@);
    proof {
        assert(lines@ =~= Seq::<usize>::empty());
        assert(cols@ =~= Seq::<usize>::empty());
    }
    while i < m
        invariant
            i <= m,
            m == pseq.len(),
            pseq == parts.deep_view(),
            pseq == split_of(s@, ","@),
            goal == subtable_model(s@),
            total as int == s@.len(),
            len_sum(pseq) + (pseq.len() - 1) == s@.len(),
            idx_sorted(lines@) && idx_distinct(lines@),
            idx_sorted(cols@) && idx_distinct(cols@),
            i < m ==> location as int == off_plain(pseq, i as int),
            sub_run(pseq, i as int, lines@, cols@, off_plain(pseq, i as int), s@) == goal,
        decreases m - i,
    {
        let part: &str = parts[i].as_str();
        let ghost t = pseq[i as int];
        let ghost l0 = lines@;
        let ghost k0 = cols@;
        let ghost off0 = location as int;
        proof {
            assert(part@ == t);
            lemma_off_plain_bound(pseq, i as int);
            lemma_len_sum_nonneg(pseq);
            crate::text::lemma_len_sum_prefix(pseq, i as int + 1);
            assert(pseq.take(i as int + 1) =~= pseq.take(i as int).push(t));
            crate::text::lemma_len_sum_push(pseq.take(i as int), t);
            crate::text::lemma_len_sum_prefix(pseq, i as int);
            assert(off_plain(pseq, i as int) + t.len() <= len_sum(pseq) + i);
            assert(len_sum(pseq) + i <= s@.len());
        }
        let n = part.unicode_len();
        let plen = n;
        let span = (location, location + plen);
        let ghost gspan = (off0, off0 + t.len());
        let c = classify_subtable(part);
        if c == -1 {
            let e = err_wrong_format(
                "There is more than one error in this part",
                part,
                s,
                Some(span),
            );
            proof {
                assert(goal == Err::<(Seq<usize>, Seq<usize>), ArgErrSpec>(
                    wrong_format_err(
                        "There is more than one error in this part"@,
                        t,
                        s@,
                        Some(gspan),
                    ),
                ));
            }
            return Err(e);
        } else if c == 0 {
            let j = digit_run_end(part, 0);
            proof {
                crate::setting::select::lemma_digit_run(t, j + 1);
            }
            let start_opt = parse_dec(part, 0, j);
            let end_opt = parse_dec(part, j + 1, n - 1);
            if start_opt.is_none() || end_opt.is_none() {
                let e = err_range(RangeErrorKind::OutOfRange, part, s, span);
                proof {
                    assert(goal == Err::<(Seq<usize>, Seq<usize>), ArgErrSpec>(
                        range_err(RangeErrorKind::OutOfRange, t, s@, gspan),
                    ));
                }
                return Err(e);
            }
            let start = start_opt.unwrap();
            let end = end_opt.unwrap();
            let ghost sv = dec_val(t.subrange(0, j as int));
            let ghost ev = dec_val(t.subrange(j as int + 1, n as int - 1));
            let axis = LineColumn::from_char(part.get_char(n - 1));
            if matches!(axis, LineColumn::Line) {
                insert_index_range(&mut lines, start, end);
                proof {
                    assert(lines@ == idx_expand(l0, sv, ev));
                    assert(sub_run(pseq, i as int, l0, k0, off0, s@) == sub_run(
                        pseq,
                        i as int + 1,
                        idx_expand(l0, sv, ev),
                        k0,
                        off0 + t.len() + 1,
                        s@,
                    ));
                }
            } else {
                insert_index_range(&mut cols, start, end);
                proof {
                    assert(cols@ == idx_expand(k0, sv, ev));
                    assert(sub_run(pseq, i as int, l0, k0, off0, s@) == sub_run(
                        pseq,
                        i as int + 1,
                        l0,
                        idx_expand(k0, sv, ev),
                        off0 + t.len() + 1,
                        s@,
                    ));
                }
            }
        } else if c == 1 {
            proof {
                crate::setting::select::lemma_digit_run(t, 0);
            }
            let v_opt = parse_dec(part, 0, n - 1);
            if v_opt.is_none() {
                let e = err_range(RangeErrorKind::OutOfRange, part, s, span);
                proof {
                    assert(goal == Err::<(Seq<usize>, Seq<usize>), ArgErrSpec>(
                        range_err(RangeErrorKind::OutOfRange, t, s@, gspan),
                    ));
                }
                return Err(e);
            }
            let v = v_opt.unwrap();
            let ghost vv = dec_val(t.subrange(0, n as int - 1));
            let axis = LineColumn::from_char(part.get_char(n - 1));
            if matches!(axis, LineColumn::Line) {
                insert_index(&mut lines, v);
                proof {
                    assert(lines@ == idx_insert(l0, vv as usize));
                    assert(sub_run(pseq, i as int, l0, k0, off0, s@) == sub_run(
                        pseq,
                        i as int + 1,
                        idx_insert(l0, vv as usize),
                        k0,
                        off0 + t.len() + 1,
                        s@,
                    ));
                }
            } else {
                insert_index(&mut cols, v);
                proof {
                    assert(cols@ == idx_insert(k0, vv as usize));
                    assert(sub_run(pseq, i as int, l0, k0, off0, s@) == sub_run(
                        pseq,
                        i as int + 1,
                        l0,
                        idx_insert(k0, vv as usize),
                        off0 + t.len() + 1,
                        s@,
                    ));
                }
            }
        } else if c == 2 {
            let e = err_range(RangeErrorKind::LeftSideError, part, s, span);
            return Err(e);
        } else if c == 3 {
            let e = err_range(RangeErrorKind::RightSideError, part, s, span);
            return Err(e);
        } else if c == 4 {
            let e = err_range(RangeErrorKind::BothSidesError, part, s, span);
            return Err(e);
        } else if c == 5 {
            let e = err_range(RangeErrorKind::SingleNumberError, part, s, span);
            return Err(e);
        } else {
            let e = err_keyword("line or column", part, s, Some(span));
            return Err(e);
        }
        if i + 1 < m {
            proof {
                lemma_off_plain_bound(pseq, i as int + 1);
                crate::text::lemma_len_sum_prefix(pseq, i as int + 1);
            }
            location = location + plen + 1;
        }
        i = i + 1;
    }
    proof {
        assert(sub_run(pseq, i as int, lines@, cols@, off_plain(pseq, i as int), s@) == Ok::<
            (Seq<usize>, Seq<usize>),
            ArgErrSpec,
        >((lines@, cols@)));
    }
    Ok((lines, cols))
}

/* ------------------------- color token grammar ------------------------ */

/// Well-formed range: digits, a dash, digits, a color letter, an axis
/// letter.
pub open spec fn col_cat0(t: Seq<char>) -> bool {
    let n = t.len() as int;
    let j = digit_run(t, 0);
    n >= 3 && is_axis_char(t[n - 1]) && is_color_char(t[n - 2]) && j >= 1 && t[j] == '-' && j + 1
        < n - 2 && digit_run(t, j + 1) == n - 2
}

/// Well-formed single: digits, a color letter, an axis letter.
pub open spec fn col_cat1(t: Seq<char>) -> bool {
    let n = t.len() as int;
    n >= 3 && is_axis_char(t[n - 1]) && is_color_char(t[n - 2]) && digit_run(t, 0) == n - 2
}

/// Malformed left bound of a range.
pub open spec fn col_cat2(t: Seq<char>) -> bool {
    let n = t.len() as int;
    let d = last_index_of(t, '-', n - 2);
    n >= 3 && is_axis_char(t[n - 1]) && is_color_char(t[n - 2]) && d >= 0 && d + 1 < n - 2
        && digits_in(t, d + 1, n - 2) && clean_in(t, 0, d)
}

/// Malformed right bound of a range.
pub open spec fn col_cat3(t: Seq<char>) -> bool {
    let n = t.len() as int;
    let j = digit_run(t, 0);
    n >= 3 && is_axis_char(t[n - 1]) && is_color_char(t[n - 2]) && j >= 1 && j < n - 2 && t[j]
        == '-' && clean_in(t, j + 1, n - 2)
}

/// Malformed on both sides of the dash.
pub open spec fn col_cat4(t: Seq<char>) -> bool {
    let n = t.len() as int;
    n >= 3 && is_axis_char(t[n - 1]) && is_color_char(t[n - 2]) && last_index_of(t, '-', n - 2)
        >= 0 && clean_in(t, 0, n - 2)
}

/// Malformed single number before the color letter.
pub open spec fn col_cat5(t: Seq<char>) -> bool {
    let n = t.len() as int;
    n >= 2 && is_axis_char(t[n - 1]) && is_color_char(t[n - 2]) && clean_in(t, 0, n - 2)
}

/// Axis letter missing after a range with a color letter.
pub open spec fn col_cat6(t: Seq<char>) -> bool {
    let n = t.len() as int;
    let j = digit_run(t, 0);
    let k = digit_run(t, j + 1);
    j >= 1 && j < n && t[j] == '-' && k > j + 1 && k < n && is_color_char(t[k]) && clean_in(
        t,
        k + 1,
        n,
    )
}

/// Axis letter missing after a single number with a color letter.
pub open spec fn col_cat7(t: Seq<char>) -> bool {
    let n = t.len() as int;
    let j = digit_run(t, 0);
    j >= 1 && j < n && is_color_char(t[j]) && clean_in(t, j + 1, n)
}

/// Color letter missing in a range.
pub open spec fn col_cat8(t: Seq<char>) -> bool {
    let n = t.len() as int;
    let j = digit_run(t, 0);
    n >= 2 && is_axis_char(t[n - 1]) && j >= 1 && t[j] == '-' && j + 1 <= n - 2 && is_digit(
        t[j + 1],
    ) && clean_in(t, j + 2, n - 1)
}

/// Color letter missing after a single number.
pub open spec fn col_cat9(t: Seq<char>) -> bool {
    let n = t.len() as int;
    n >= 2 && is_axis_char(t[n - 1]) && is_digit(t[0]) && clean_in(t, 1, n - 1)
}

/// The first matching category of the ordered color grammar, or `-1`
/// when none matches.
pub open spec fn col_cat(t: Seq<char>) -> int {
    if col_cat0(t) {
        0
    } else if col_cat1(t) {
        1
    } else if col_cat2(t) {
        2
    } else if col_cat3(t) {
        3
    } else if col_cat4(t) {
        4
    } else if col_cat5(t) {
        5
    } else if col_cat6(t) {
        6
    } else if col_cat7(t) {
        7
    } else if col_cat8(t) {
        8
    } else if col_cat9(t) {
        9
    } else {
        -1
    }
}

/// Classifies one color token against the ordered categories.
fn classify_color(t: &str) -> (c: i32)
    ensures
        c == col_cat(t@),
{
    let n = t.unicode_len();
    if n == 0 {
        return -1;
    }
    let last = t.get_char(n - 1);
    let ax = last == 'l' || last == 'c' || last == 'L' || last == 'C';
    let j = digit_run_end(t, 0);
    let colr2 = if n >= 2 {
        let p = t.get_char(n - 2);
        p == 'r' || p == 'g' || p == 'b' || p == 'y' || p == 'x' || p == 'w' || p == 'R' || p == 'G'
            || p == 'B' || p == 'Y' || p == 'X' || p == 'W'
    } else {
        false
    };
    let c0 = ax && colr2 && n >= 3 && j >= 1 && j + 1 < n - 2 && t.get_char(j) == '-'
        && digit_run_end(t, j + 1) == n - 2;
    if c0 {
        return 0;
    }
    let c1 = ax && colr2 && n >= 3 && j == n - 2;
    if c1 {
        return 1;
    }
    let dash = if n >= 2 {
        last_char_before(t, '-', n - 2)
    } else {
        None
    };
    proof {
        if n >= 2 {
            crate::setting::select::lemma_last_index_of(t@, '-', n - 2);
        }
    }
    let c2 = ax && colr2 && n >= 3 && match dash {
        Some(d) => d + 1 < n - 2 && digits_between(t, d + 1, n - 2) && clean_between(t, 0, d),
        None => false,
    };
    if c2 {
        return 2;
    }
    let c3 = ax && colr2 && n >= 3 && j >= 1 && j < n - 2 && t.get_char(j) == '-' && clean_between(
        t,
        j + 1,
        n - 2,
    );
    if c3 {
        return 3;
    }
    let c4 = ax && colr2 && n >= 3 && dash.is_some() && clean_between(t, 0, n - 2);
    if c4 {
        return 4;
    }
    let c5 = ax && colr2 && clean_between(t, 0, n - 2);
    if c5 {
        return 5;
    }
    let c6 = j >= 1 && j < n && t.get_char(j) == '-' && {
        let k = digit_run_end(t, j + 1);
        k > j + 1 && k < n && {
            let p = t.get_char(k);
            (p == 'r' || p == 'g' || p == 'b' || p == 'y' || p == 'x' || p == 'w' || p == 'R' || p
                == 'G' || p == 'B' || p == 'Y' || p == 'X' || p == 'W') && clean_between(t, k + 1, n)
        }
    };
    if c6 {
        return 6;
    }
    let c7 = j >= 1 && j < n && {
        let p = t.get_char(j);
        (p == 'r' || p == 'g' || p == 'b' || p == 'y' || p == 'x' || p == 'w' || p == 'R' || p
            == 'G' || p == 'B' || p == 'Y' || p == 'X' || p == 'W') && clean_between(t, j + 1, n)
    };
    if c7 {
        return 7;
    }
    let c8 = ax && n >= 2 && j >= 1 && j < n && t.get_char(j) == '-' && j + 1 <= n - 2 && {
        let d2 = t.get_char(j + 1);
        48 <= (d2 as u32) && (d2 as u32) <= 57 && clean_between(t, j + 2, n - 1)
    };
    if c8 {
        return 8;
    }
    let first = t.get_char(0);
    let c9 = ax && n >= 2 && 48 <= (first as u32) && (first as u32) <= 57 && clean_between(
        t,
        1,
        n - 1,
    );
    if c9 {
        return 9;
    }
    -1
}

/* -------------------------- color aggregation ------------------------- */

/// A color binding rendered as `(index, Color)`, as conflict diagnostics
/// name it.
pub open spec fn color_pair_text(p: (usize, OutputColor)) -> Seq<char> {
    "("@ + dec_of_nat(p.0 as nat) + ", "@ + color_name(p.1) + ")"@
}

/// The post-processing of one color bucket: the first index bound to two
/// different colors is a conflict; otherwise the bucket stands.
pub open spec fn col_finalize_one(
    r: Seq<(usize, OutputColor)>,
    whole: Seq<char>,
) -> Result<Seq<(usize, OutputColor)>, ArgErrSpec> {
    let f = first_conflict(r);
    if f >= 0 {
        Err(dup_conflict_err(whole, color_pair_text(r[f]), color_pair_text(r[f + 1])))
    } else {
        Ok(r)
    }
}

/// One step of the color aggregator: classify token `k`, abort on the
/// first malformed token, else route its color bindings into the line or
/// column bucket; after the last token, check each bucket for conflicts,
/// lines first.
pub open spec fn col_run(
    parts: Seq<Seq<char>>,
    k: int,
    lines: Seq<(usize, OutputColor)>,
    cols: Seq<(usize, OutputColor)>,
    off: int,
    whole: Seq<char>,
) -> Result<(Seq<(usize, OutputColor)>, Seq<(usize, OutputColor)>), ArgErrSpec>
    decreases parts.len() - k,
{
    if k < 0 || k >= parts.len() {
        match col_finalize_one(lines, whole) {
            Err(m) => Err(m),
            Ok(l2) => match col_finalize_one(cols, whole) {
                Err(m) => Err(m),
                Ok(c2) => Ok((l2, c2)),
            },
        }
    } else {
        let t = parts[k];
        let n = t.len() as int;
        let span = (off, off + t.len());
        let c = col_cat(t);
        if c == -1 {
            Err(wrong_format_err("There is more than one error in this part"@, t, whole, Some(span)))
        } else if c == 0 {
            let j = digit_run(t, 0);
            let sv = dec_val(t.subrange(0, j));
            let ev = dec_val(t.subrange(j + 1, n - 2));
            let color = color_of(t[n - 2]);
            if sv > usize::MAX || ev > usize::MAX {
                Err(range_err(RangeErrorKind::OutOfRange, t, whole, span))
            } else if axis_of(t[n - 1]) == LineColumn::Line {
                col_run(parts, k + 1, expand_insert(lines, sv, ev, color), cols, off + t.len() + 1, whole)
            } else {
                col_run(parts, k + 1, lines, expand_insert(cols, sv, ev, color), off + t.len() + 1, whole)
            }
        } else if c == 1 {
            let v = dec_val(t.subrange(0, n - 2));
            let color = color_of(t[n - 2]);
            if v > usize::MAX {
                Err(range_err(RangeErrorKind::OutOfRange, t, whole, span))
            } else if axis_of(t[n - 1]) == LineColumn::Line {
                col_run(
                    parts,
                    k + 1,
                    insert_pair(lines, (v as usize, color)),
                    cols,
                    off + t.len() + 1,
                    whole,
                )
            } else {
                col_run(
                    parts,
                    k + 1,
                    lines,
                    insert_pair(cols, (v as usize, color)),
                    off + t.len() + 1,
                    whole,
                )
            }
        } else if c == 2 {
            Err(range_err(RangeErrorKind::LeftSideError, t, whole, span))
        } else if c == 3 {
            Err(range_err(RangeErrorKind::RightSideError, t, whole, span))
        } else if c == 4 {
            Err(range_err(RangeErrorKind::BothSidesError, t, whole, span))
        } else if c == 5 {
            Err(range_err(RangeErrorKind::SingleNumberError, t, whole, span))
        } else if c == 6 || c == 7 {
            Err(keyword_err("line or column"@, t, whole, Some(span)))
        } else {
            Err(keyword_err("color"@, t, whole, Some(span)))
        }
    }
}

/// What a color selector expression denotes: the ordered, conflict-free
/// color bindings of each axis, or the diagnostic of its first fault.
pub open spec fn color_model(s: Seq<char>) -> Result<
    (Seq<(usize, OutputColor)>, Seq<(usize, OutputColor)>),
    ArgErrSpec,
> {
    col_run(split_of(s, ","@), 0, Seq::empty(), Seq::empty(), 0, s)
}

/// Inserts a color binding into an ordered, duplicate-free vector.
fn insert_color_pair(v: &mut Vec<(usize, OutputColor)>, p: (usize, OutputColor))
    requires
        pairs_sorted(old(v)@),
        pairs_distinct(old(v)@),
    ensures
        final(v)@ == insert_pair(old(v)@, p),
        pairs_sorted(final(v)@),
        pairs_distinct(final(v)@),
{
    proof {
        lemma_insert_pair(old(v)@, p);
    }
    let mut pos: usize = 0;
    loop
        invariant
            pos <= v@.len(),
            v@ == old(v)@,
            pairs_sorted(v@),
            pairs_distinct(v@),
            forall|k: int| 0 <= k < pos ==> (#[trigger] v@[k]).0 <= p.0 && v@[k] != p,
        ensures
            pos <= v@.len(),
            v@ == old(v)@,
            forall|k: int| 0 <= k < pos ==> (#[trigger] v@[k]).0 <= p.0 && v@[k] != p,
            pos < v@.len() ==> v@[pos as int].0 > p.0 || v@[pos as int] == p,
        decreases v@.len() - pos,
    {
        if pos >= v.len() {
            break;
        }
        let q = v[pos];
        if q.0 > p.0 {
            break;
        }
        if q.0 == p.0 && q.1 == p.1 {
            break;
        }
        pos = pos + 1;
    }
    if pos < v.len() {
        let q = v[pos];
        if q.0 == p.0 && q.1 == p.1 {
            proof {
                assert(old(v)@.contains(p)) by {
                    assert(old(v)@[pos as int] == p);
                }
            }
            return;
        }
    }
    proof {
        assert(!old(v)@.contains(p)) by {
            if old(v)@.contains(p) {
                let k = choose|k: int| 0 <= k < old(v)@.len() && old(v)@[k] == p;
                if k < pos {
                    assert(old(v)@[k] != p);
                } else {
                    assert(old(v)@[pos as int].0 > p.0);
                    assert(old(v)@[pos as int].0 <= old(v)@[k].0);
                }
            }
        }
        assert(insert_pos(old(v)@, p.0) == pos as int) by {
            lemma_insert_pos(old(v)@, p.0);
            let q = insert_pos(old(v)@, p.0);
            if q < pos {
                assert(old(v)@[q].0 <= p.0);
                assert(old(v)@[q].0 > p.0);
            }
            if q > pos {
                assert(pos < old(v)@.len());
                assert(old(v)@[pos as int].0 <= p.0);
                assert(old(v)@[pos as int].0 > p.0);
            }
        }
    }
    v.insert(pos, p);
    proof {
        assert(v@ =~= old(v)@.take(pos as int) + seq![p] + old(v)@.skip(pos as int));
        lemma_insert_pair(old(v)@, p);
    }
}

/// Inserts a color binding for every index between `start` and `end`,
/// taken as an unordered pair: an inverted range covers the same
/// interval.
fn insert_color_range(v: &mut Vec<(usize, OutputColor)>, start: usize, end: usize, color: OutputColor)
    requires
        pairs_sorted(old(v)@),
        pairs_distinct(old(v)@),
    ensures
        final(v)@ == expand_insert(old(v)@, start as int, end as int, color),
        pairs_sorted(final(v)@),
        pairs_distinct(final(v)@),
{
    let lo = if start <= end {
        start
    } else {
        end
    };
    let hi = if start <= end {
        end
    } else {
        start
    };
    let mut x = lo;
    loop
        invariant_except_break
            expand_insert_from(old(v)@, lo as int, hi as int, color) == expand_insert_from(
                v@,
                x as int,
                hi as int,
                color,
            ),
        invariant
            lo <= x <= hi,
            pairs_sorted(v@),
            pairs_distinct(v@),
        ensures
            v@ == expand_insert_from(old(v)@, lo as int, hi as int, color),
            pairs_sorted(v@),
            pairs_distinct(v@),
        decreases hi - x,
    {
        let ghost before = v@;
        insert_color_pair(v, (x, color));
        proof {
            assert(expand_insert_from(before, x as int, hi as int, color) == expand_insert_from(
                insert_pair(before, (x, color)),
                x as int + 1,
                hi as int,
                color,
            ));
        }
        if x == hi {
            proof {
                assert(expand_insert_from(v@, x as int + 1, hi as int, color) == v@);
            }
            break;
        }
        x = x + 1;
    }
}

/// Scans an ordered color bucket for two adjacent bindings of one
/// index. The bucket stands unchanged when it is conflict-free.
#[verifier::rlimit(60)]
pub fn post_process_color(s: &str, result: Vec<(usize, OutputColor)>) -> (r: Result<
    Vec<(usize, OutputColor)>,
    ArgError,
>)
    requires
        pairs_sorted(result@),
        pairs_distinct(result@),
    ensures
        r matches Ok(v) ==> col_finalize_one(result@, s@) == Ok::<
            Seq<(usize, OutputColor)>,
            ArgErrSpec,
        >(v@) && v@ == result@,
        r matches Err(e) ==> col_finalize_one(result@, s@) matches Err(m) && arg_error_is(e, m),
{
    let n = result.len();
    let mut k: usize = 0;
    proof {
        lemma_first_conflict(result@);
    }
    while n > 0 && k < n - 1
        invariant
            k <= n,
            n == result@.len(),
            pairs_sorted(result@),
            pairs_distinct(result@),
            forall|j: int| 0 <= j < k ==> (#[trigger] result@[j]).0 != result@[j + 1].0,
        decreases n - k,
    {
        if result[k].0 == result[k + 1].0 {
            proof {
                crate::setting::select::lemma_first_conflict_is(result@, k as int);
            }
            let name1 = result[k].1.to_string();
            let p1 = pair_string(result[k].0, name1.as_str());
            let name2 = result[k + 1].1.to_string();
            let p2 = pair_string(result[k + 1].0, name2.as_str());
            proof {
                assert(p1@ == color_pair_text(result@[k as int]));
                assert(p2@ == color_pair_text(result@[k as int + 1]));
            }
            let e = err_dup_conflict(s, p1, p2);
            return Err(e);
        }
        k = k + 1;
    }
    proof {
        lemma_first_conflict(result@);
        if first_conflict(result@) >= 0 {
            assert(result@[first_conflict(result@)].0 == result@[first_conflict(result@) + 1].0);
        }
    }
    Ok(result)
}

/// Decodes a color selector expression: comma-separated tokens, each a
/// number or range followed by a color letter and an axis letter. Yields
/// the ordered color bindings of each axis, or the diagnostic of the
/// first malformed token or conflict.
pub fn validate_export_color(s: &str) -> (r: Result<
    (Vec<(usize, OutputColor)>, Vec<(usize, OutputColor)>),
    ArgError,
>)
    ensures
        r matches Ok(p) ==> color_model(s@) == Ok::<
            (Seq<(usize, OutputColor)>, Seq<(usize, OutputColor)>),
            ArgErrSpec,
        >((p.0@, p.1@)),
        r matches Ok(p) ==> pairs_sorted(p.0@) && pairs_distinct(p.0@) && pairs_sorted(p.1@)
            && pairs_distinct(p.1@),
        r matches Ok(p) ==> (forall|i: int, j: int|
            0 <= i < j < p.0@.len() ==> (#[trigger] p.0@[i]).0 < (#[trigger] p.0@[j]).0) && (
        forall|i: int, j: int|
            0 <= i < j < p.1@.len() ==> (#[trigger] p.1@[i]).0 < (#[trigger] p.1@[j]).0),
        r matches Err(e) ==> color_model(s@) matches Err(m) && arg_error_is(e, m),
{
    proof {
        reveal_strlit(",");
        assert(","@ =~= seq![',']);
    }
    let parts = split_str(s, ",");
    let ghost pseq = parts.deep_view();
    let total = s.unicode_len();
    proof {
        lemma_split_len_sum(s@, ","@);
        assert(len_sum(pseq) + (pseq.len() - 1) * 1 == s@.len());
        crate::text::lemma_split_len(s@, ","@);
    }
    let mut lines: Vec<(usize, OutputColor)> = Vec::new();
    let mut cols: Vec<(usize, OutputColor)> = Vec::new();
    let mut location: usize = 0;
    let mut i: usize = 0;
    let m = parts.len();
    let ghost goal = color_model(s@);
    proof {
        assert(lines@ =~= Seq::<(usize, OutputColor)>::empty());
        assert(cols@ =~= Seq::<(usize, OutputColor)>::empty());
    }
    while i < m
        invariant
            i <= m,
            m == pseq.len(),
            pseq == parts.deep_view(),
            pseq == split_of(s@, ","@),
            goal == color_model(s@),
            total as int == s@.len(),
            len_sum(pseq) + (pseq.len() - 1) == s@.len(),
            pairs_sorted(lines@) && pairs_distinct(lines@),
            pairs_sorted(cols@) && pairs_distinct(cols@),
            i < m ==> location as int == off_plain(pseq, i as int),
            col_run(pseq, i as int, lines@, cols@, off_plain(pseq, i as int), s@) == goal,
        decreases m - i,
    {
        let part: &str = parts[i].as_str();
        let ghost t = pseq[i as int];
        let ghost l0 = lines@;
        let ghost k0 = cols@;
        let ghost off0 = location as int;
        proof {
            assert(part@ == t);
            lemma_off_plain_bound(pseq, i as int);
            lemma_len_sum_nonneg(pseq);
            crate::text::lemma_len_sum_prefix(pseq, i as int + 1);
            assert(pseq.take(i as int + 1) =~= pseq.take(i as int).push(t));
            crate::text::lemma_len_sum_push(pseq.take(i as int), t);
            crate::text::lemma_len_sum_prefix(pseq, i as int);
            assert(off_plain(pseq, i as int) + t.len() <= len_sum(pseq) + i);
            assert(len_sum(pseq) + i <= s@.len());
        }
        let n = part.unicode_len();
        let plen = n;
        let span = (location, location + plen);
        let ghost gspan = (off0, off0 + t.len());
        let c = classify_color(part);
        if c == -1 {
            let e = err_wrong_format(
                "There is more than one error in this part",
                part,
                s,
                Some(span),
            );
            return Err(e);
        } else if c == 0 {
            let j = digit_run_end(part, 0);
            proof {
                crate::setting::select::lemma_digit_run(t, j + 1);
            }
            let start_opt = parse_dec(part, 0, j);
            let end_opt = parse_dec(part, j + 1, n - 2);
            if start_opt.is_none() || end_opt.is_none() {
                let e = err_range(RangeErrorKind::OutOfRange, part, s, span);
                return Err(e);
            }
            let start = start_opt.unwrap();
            let end = end_opt.unwrap();
            let ghost sv = dec_val(t.subrange(0, j as int));
            let ghost ev = dec_val(t.subrange(j as int + 1, n as int - 2));
            let color = OutputColor::from_char(part.get_char(n - 2));
            let axis = LineColumn::from_char(part.get_char(n - 1));
            if matches!(axis, LineColumn::Line) {
                insert_color_range(&mut lines, start, end, color);
                proof {
                    assert(lines@ == expand_insert(l0, sv, ev, color_of(t[n as int - 2])));
                    assert(col_run(pseq, i as int, l0, k0, off0, s@) == col_run(
                        pseq,
                        i as int + 1,
                        expand_insert(l0, sv, ev, color_of(t[n as int - 2])),
                        k0,
                        off0 + t.len() + 1,
                        s@,
                    ));
                }
            } else {
                insert_color_range(&mut cols, start, end, color);
                proof {
                    assert(cols@ == expand_insert(k0, sv, ev, color_of(t[n as int - 2])));
                    assert(col_run(pseq, i as int, l0, k0, off0, s@) == col_run(
                        pseq,
                        i as int + 1,
                        l0,
                        expand_insert(k0, sv, ev, color_of(t[n as int - 2])),
                        off0 + t.len() + 1,
                        s@,
                    ));
                }
            }
        } else if c == 1 {
            proof {
                crate::setting::select::lemma_digit_run(t, 0);
            }
            let v_opt = parse_dec(part, 0, n - 2);
            if v_opt.is_none() {
                let e = err_range(RangeErrorKind::OutOfRange, part, s, span);
                return Err(e);
            }
            let v = v_opt.unwrap();
            let ghost vv = dec_val(t.subrange(0, n as int - 2));
            let color = OutputColor::from_char(part.get_char(n - 2));
            let axis = LineColumn::from_char(part.get_char(n - 1));
            if matches!(axis, LineColumn::Line) {
                insert_color_pair(&mut lines, (v, color));
                proof {
                    assert(lines@ == insert_pair(l0, (vv as usize, color_of(t[n as int - 2]))));
                    assert(col_run(pseq, i as int, l0, k0, off0, s@) == col_run(
                        pseq,
                        i as int + 1,
                        insert_pair(l0, (vv as usize, color_of(t[n as int - 2]))),
                        k0,
                        off0 + t.len() + 1,
                        s@,
                    ));
                }
            } else {
                insert_color_pair(&mut cols, (v, color));
                proof {
                    assert(cols@ == insert_pair(k0, (vv as usize, color_of(t[n as int - 2]))));
                    assert(col_run(pseq, i as int, l0, k0, off0, s@) == col_run(
                        pseq,
                        i as int + 1,
                        l0,
                        insert_pair(k0, (vv as usize, color_of(t[n as int - 2]))),
                        off0 + t.len() + 1,
                        s@,
                    ));
                }
            }
        } else if c == 2 {
            let e = err_range(RangeErrorKind::LeftSideError, part, s, span);
            return Err(e);
        } else if c == 3 {
            let e = err_range(RangeErrorKind::RightSideError, part, s, span);
            return Err(e);
        } else if c == 4 {
            let e = err_range(RangeErrorKind::BothSidesError, part, s, span);
            return Err(e);
        } else if c == 5 {
            let e = err_range(RangeErrorKind::SingleNumberError, part, s, span);
            return Err(e);
        } else if c == 6 || c == 7 {
            let e = err_keyword("line or column", part, s, Some(span));
            return Err(e);
        } else {
            let e = err_keyword("color", part, s, Some(span));
            return Err(e);
        }
        if i + 1 < m {
            proof {
                lemma_off_plain_bound(pseq, i as int + 1);
                crate::text::lemma_len_sum_prefix(pseq, i as int + 1);
            }
            location = location + plen + 1;
        }
        i = i + 1;
    }
    let lines2 = match post_process_color(s, lines) {
        Ok(v) => v,
        Err(e) => {
            return Err(e);
        },
    };
    let cols2 = match post_process_color(s, cols) {
        Ok(v) => v,
        Err(e) => {
            return Err(e);
        },
    };
    proof {
        lemma_first_conflict(lines2@);
        lemma_first_conflict(cols2@);
        assert forall|i: int, j: int| 0 <= i < j < lines2@.len() implies (
        #[trigger] lines2@[i]).0 < (#[trigger] lines2@[j]).0 by {
            crate::setting::select::lemma_pairs_adjacent_strict(lines2@, i, j);
        }
        assert forall|i: int, j: int| 0 <= i < j < cols2@.len() implies (#[trigger] cols2@[i]).0
            < (#[trigger] cols2@[j]).0 by {
            crate::setting::select::lemma_pairs_adjacent_strict(cols2@, i, j);
        }
    }
    Ok((lines2, cols2))
}

/* ------------------------ order invariance law ------------------------ */

/// Expanding an ascending range adds exactly the indices of `[lo, hi]`
/// to the members.
pub proof fn lemma_idx_expand_from_members(r: Seq<usize>, lo: int, hi: int)
    requires
        0 <= lo,
        idx_sorted(r),
        idx_distinct(r),
    ensures
        forall|x: usize| #[trigger]
            idx_expand_from(r, lo, hi).contains(x) <==> (r.contains(x) || (lo <= x as int <= hi)),
    decreases hi - lo + 1,
{
    if lo > hi || lo > usize::MAX {
        assert forall|x: usize| #[trigger]
            idx_expand_from(r, lo, hi).contains(x) <==> (r.contains(x) || (lo <= x as int
                <= hi)) by {
            if lo <= x as int <= hi {
                assert(lo <= usize::MAX);
            }
        }
    } else {
        lemma_idx_insert(r, lo as usize);
        lemma_idx_expand_from_members(idx_insert(r, lo as usize), lo + 1, hi);
        assert forall|x: usize| #[trigger]
            idx_expand_from(r, lo, hi).contains(x) <==> (r.contains(x) || (lo <= x as int
                <= hi)) by {
            assert(idx_expand_from(r, lo, hi) == idx_expand_from(
                idx_insert(r, lo as usize),
                lo + 1,
                hi,
            ));
            assert(idx_expand_from(idx_insert(r, lo as usize), lo + 1, hi).contains(x) <==> (
            idx_insert(r, lo as usize).contains(x) || (lo + 1 <= x as int <= hi)));
            assert(idx_insert(r, lo as usize).contains(x) <==> (r.contains(x) || x
                == lo as usize));
        }
    }
}

/// Expanding a range adds exactly the indices of its closed interval,
/// whichever way round its ends are given.
pub proof fn lemma_idx_expand_members(r: Seq<usize>, a: int, b: int)
    requires
        0 <= a,
        0 <= b,
        idx_sorted(r),
        idx_distinct(r),
    ensures
        forall|x: usize| #[trigger]
            idx_expand(r, a, b).contains(x) <==> (r.contains(x) || (vstd::math::min(a, b)
                <= x as int <= vstd::math::max(a, b))),
{
    lemma_idx_expand_from_members(r, vstd::math::min(a, b), vstd::math::max(a, b));
}

/// What one well-formed token selects on the given axis.
pub open spec fn token_selects(t: Seq<char>, axis: LineColumn, x: usize) -> bool {
    let n = t.len() as int;
    let j = digit_run(t, 0);
    let a = dec_val(t.subrange(0, j));
    let b = dec_val(t.subrange(j + 1, n - 1));
    if sub_cat(t) == 0 {
        axis_of(t[n - 1]) == axis && vstd::math::min(a, b) <= x as int <= vstd::math::max(a, b)
    } else if sub_cat(t) == 1 {
        axis_of(t[n - 1]) == axis && x as int == dec_val(t.subrange(0, n - 1))
    } else {
        false
    }
}

/// A successful run keeps both buckets ordered and duplicate-free.
pub proof fn lemma_sub_run_sorted(
    parts: Seq<Seq<char>>,
    k: int,
    lines: Seq<usize>,
    cols: Seq<usize>,
    off: int,
    whole: Seq<char>,
    p: (Seq<usize>, Seq<usize>),
)
    requires
        idx_sorted(lines),
        idx_distinct(lines),
        idx_sorted(cols),
        idx_distinct(cols),
        sub_run(parts, k, lines, cols, off, whole) == Ok::<(Seq<usize>, Seq<usize>), ArgErrSpec>(p),
    ensures
        idx_sorted(p.0),
        idx_distinct(p.0),
        idx_sorted(p.1),
        idx_distinct(p.1),
    decreases parts.len() - k,
{
    if k < 0 || k >= parts.len() {
    } else {
        let t = parts[k];
        let n = t.len() as int;
        let j = digit_run(t, 0);
        let c = sub_cat(t);
        if c == 0 {
            let sv = dec_val(t.subrange(0, j));
            let ev = dec_val(t.subrange(j + 1, n - 1));
            lemma_idx_expand(lines, sv, ev);
            lemma_idx_expand(cols, sv, ev);
            if axis_of(t[n - 1]) == LineColumn::Line {
                lemma_sub_run_sorted(parts, k + 1, idx_expand(lines, sv, ev), cols, off + t.len() + 1, whole, p);
            } else {
                lemma_sub_run_sorted(parts, k + 1, lines, idx_expand(cols, sv, ev), off + t.len() + 1, whole, p);
            }
        } else if c == 1 {
            let v = dec_val(t.subrange(0, n - 1));
            assert(v <= usize::MAX);
            lemma_idx_insert(lines, v as usize);
            lemma_idx_insert(cols, v as usize);
            if axis_of(t[n - 1]) == LineColumn::Line {
                lemma_sub_run_sorted(parts, k + 1, idx_insert(lines, v as usize), cols, off + t.len() + 1, whole, p);
            } else {
                lemma_sub_run_sorted(parts, k + 1, lines, idx_insert(cols, v as usize), off + t.len() + 1, whole, p);
            }
        }
    }
}

/// The members of a successful run: the accumulated indices plus what
/// the remaining tokens select, on each axis.
pub proof fn lemma_sub_run_members(
    parts: Seq<Seq<char>>,
    k: int,
    lines: Seq<usize>,
    cols: Seq<usize>,
    off: int,
    whole: Seq<char>,
    p: (Seq<usize>, Seq<usize>),
)
    requires
        0 <= k <= parts.len(),
        idx_sorted(lines),
        idx_distinct(lines),
        idx_sorted(cols),
        idx_distinct(cols),
        sub_run(parts, k, lines, cols, off, whole) == Ok::<(Seq<usize>, Seq<usize>), ArgErrSpec>(p),
    ensures
        forall|x: usize| #[trigger]
            p.0.contains(x) <==> (lines.contains(x) || exists|tk: int|
                k <= tk < parts.len() && token_selects(#[trigger] parts[tk], LineColumn::Line, x)),
        forall|x: usize| #[trigger]
            p.1.contains(x) <==> (cols.contains(x) || exists|tk: int|
                k <= tk < parts.len() && token_selects(
                    #[trigger] parts[tk],
                    LineColumn::Column,
                    x,
                )),
    decreases parts.len() - k,
{
    if k == parts.len() {
        assert(p == (lines, cols));
    } else {
        let t = parts[k];
        let n = t.len() as int;
        let j = digit_run(t, 0);
        let c = sub_cat(t);
        let ax = axis_of(t[n - 1]);
        crate::setting::select::lemma_digit_run(t, 0);
        crate::setting::select::lemma_digit_run(t, j + 1);
        assert(c == 0 || c == 1);
        let sv = if c == 0 {
            dec_val(t.subrange(0, j))
        } else {
            dec_val(t.subrange(0, n - 1))
        };
        let ev = if c == 0 {
            dec_val(t.subrange(j + 1, n - 1))
        } else {
            sv
        };
        if c == 0 {
            assert(digits_in(t.subrange(0, j), 0, t.subrange(0, j).len() as int)) by {
                assert(forall|y: int| 0 <= y < j ==> #[trigger] t.subrange(0, j)[y] == t[y]);
            }
            assert(digits_in(
                t.subrange(j + 1, n - 1),
                0,
                t.subrange(j + 1, n - 1).len() as int,
            )) by {
                assert(forall|y: int|
                    0 <= y < n - 1 - (j + 1) ==> #[trigger] t.subrange(j + 1, n - 1)[y] == t[j + 1
                        + y]);
            }
            crate::text::lemma_dec_val_nonneg(t.subrange(0, j));
            crate::text::lemma_dec_val_nonneg(t.subrange(j + 1, n - 1));
        } else {
            assert(digits_in(t.subrange(0, n - 1), 0, t.subrange(0, n - 1).len() as int)) by {
                assert(forall|y: int| 0 <= y < n - 1 ==> #[trigger] t.subrange(0, n - 1)[y] == t[y]);
            }
            crate::text::lemma_dec_val_nonneg(t.subrange(0, n - 1));
        }
        assert(sv <= usize::MAX && ev <= usize::MAX);
        let lines2: Seq<usize> = if ax == LineColumn::Line {
            if c == 0 {
                idx_expand(lines, sv, ev)
            } else {
                idx_insert(lines, sv as usize)
            }
        } else {
            lines
        };
        let cols2: Seq<usize> = if ax == LineColumn::Column {
            if c == 0 {
                idx_expand(cols, sv, ev)
            } else {
                idx_insert(cols, sv as usize)
            }
        } else {
            cols
        };
        if c == 0 {
            lemma_idx_expand(lines, sv, ev);
            lemma_idx_expand(cols, sv, ev);
            lemma_idx_expand_members(lines, sv, ev);
            lemma_idx_expand_members(cols, sv, ev);
        } else {
            lemma_idx_insert(lines, sv as usize);
            lemma_idx_insert(cols, sv as usize);
        }
        assert(sub_run(parts, k + 1, lines2, cols2, off + t.len() + 1, whole) == Ok::<
            (Seq<usize>, Seq<usize>),
            ArgErrSpec,
        >(p));
        lemma_sub_run_members(parts, k + 1, lines2, cols2, off + t.len() + 1, whole, p);
        assert forall|x: usize| #[trigger]
            p.0.contains(x) <==> (lines.contains(x) || exists|tk: int|
                k <= tk < parts.len() && token_selects(
                    #[trigger] parts[tk],
                    LineColumn::Line,
                    x,
                )) by {
            assert(p.0.contains(x) <==> (lines2.contains(x) || exists|tk: int|
                k + 1 <= tk < parts.len() && token_selects(
                    #[trigger] parts[tk],
                    LineColumn::Line,
                    x,
                )));
            assert(lines2.contains(x) <==> (lines.contains(x) || token_selects(
                parts[k],
                LineColumn::Line,
                x,
            )));
            if token_selects(parts[k], LineColumn::Line, x) {
                assert(k <= k < parts.len() && token_selects(parts[k], LineColumn::Line, x));
            }
            if exists|tk: int|
                k + 1 <= tk < parts.len() && token_selects(
                    #[trigger] parts[tk],
                    LineColumn::Line,
                    x,
                ) {
                let tk = choose|tk: int|
                    k + 1 <= tk < parts.len() && token_selects(
                        #[trigger] parts[tk],
                        LineColumn::Line,
                        x,
                    );
                assert(k <= tk < parts.len() && token_selects(parts[tk], LineColumn::Line, x));
            }
            if exists|tk: int|
                k <= tk < parts.len() && token_selects(#[trigger] parts[tk], LineColumn::Line, x) {
                let tk = choose|tk: int|
                    k <= tk < parts.len() && token_selects(
                        #[trigger] parts[tk],
                        LineColumn::Line,
                        x,
                    );
                if tk > k {
                    assert(k + 1 <= tk < parts.len() && token_selects(
                        parts[tk],
                        LineColumn::Line,
                        x,
                    ));
                }
            }
        }
        assert forall|x: usize| #[trigger]
            p.1.contains(x) <==> (cols.contains(x) || exists|tk: int|
                k <= tk < parts.len() && token_selects(
                    #[trigger] parts[tk],
                    LineColumn::Column,
                    x,
                )) by {
            assert(p.1.contains(x) <==> (cols2.contains(x) || exists|tk: int|
                k + 1 <= tk < parts.len() && token_selects(
                    #[trigger] parts[tk],
                    LineColumn::Column,
                    x,
                )));
            assert(cols2.contains(x) <==> (cols.contains(x) || token_selects(
                parts[k],
                LineColumn::Column,
                x,
            )));
            if token_selects(parts[k], LineColumn::Column, x) {
                assert(k <= k < parts.len() && token_selects(parts[k], LineColumn::Column, x));
            }
            if exists|tk: int|
                k + 1 <= tk < parts.len() && token_selects(
                    #[trigger] parts[tk],
                    LineColumn::Column,
                    x,
                ) {
                let tk = choose|tk: int|
                    k + 1 <= tk < parts.len() && token_selects(
                        #[trigger] parts[tk],
                        LineColumn::Column,
                        x,
                    );
                assert(k <= tk < parts.len() && token_selects(parts[tk], LineColumn::Column, x));
            }
            if exists|tk: int|
                k <= tk < parts.len() && token_selects(
                    #[trigger] parts[tk],
                    LineColumn::Column,
                    x,
                ) {
                let tk = choose|tk: int|
                    k <= tk < parts.len() && token_selects(
                        #[trigger] parts[tk],
                        LineColumn::Column,
                        x,
                    );
                if tk > k {
                    assert(k + 1 <= tk < parts.len() && token_selects(
                        parts[tk],
                        LineColumn::Column,
                        x,
                    ));
                }
            }
        }
    }
}

/// Two ordered, duplicate-free index sequences with the same members are
/// equal.
pub proof fn lemma_sorted_unique_eq(a: Seq<usize>, b: Seq<usize>)
    requires
        idx_sorted(a),
        idx_distinct(a),
        idx_sorted(b),
        idx_distinct(b),
        forall|x: usize| #[trigger] a.contains(x) <==> #[trigger] b.contains(x),
    ensures
        a == b,
    decreases a.len(),
{
    if a.len() == 0 {
        if b.len() > 0 {
            assert(b.contains(b[0]));
            assert(a.contains(b[0]));
        }
        assert(a =~= b);
    } else {
        assert(a.contains(a[0]));
        assert(b.contains(a[0]));
        assert(b.len() > 0);
        assert(b.contains(b[0]));
        assert(a.contains(b[0]));
        let ia = choose|i: int| 0 <= i < a.len() && a[i] == b[0];
        let ib = choose|i: int| 0 <= i < b.len() && b[i] == a[0];
        assert(a[0] <= a[ia]);
        assert(b[0] <= b[ib]);
        assert(a[0] == b[0]);
        let at = a.drop_first();
        let bt = b.drop_first();
        assert(forall|i: int| 0 <= i < at.len() ==> #[trigger] at[i] == a[i + 1]);
        assert(forall|i: int| 0 <= i < bt.len() ==> #[trigger] bt[i] == b[i + 1]);
        assert forall|x: usize| #[trigger] at.contains(x) <==> #[trigger] bt.contains(x) by {
            if at.contains(x) {
                let i = choose|i: int| 0 <= i < at.len() && at[i] == x;
                assert(a[i + 1] == x);
                assert(a.contains(x));
                assert(x != a[0]);
                assert(b.contains(x));
                let i2 = choose|i2: int| 0 <= i2 < b.len() && b[i2] == x;
                assert(i2 != 0);
                assert(bt[i2 - 1] == x);
                assert(bt.contains(x));
            }
            if bt.contains(x) {
                let i = choose|i: int| 0 <= i < bt.len() && bt[i] == x;
                assert(b[i + 1] == x);
                assert(b.contains(x));
                assert(x != b[0]);
                assert(a.contains(x));
                let i2 = choose|i2: int| 0 <= i2 < a.len() && a[i2] == x;
                assert(i2 != 0);
                assert(at[i2 - 1] == x);
                assert(at.contains(x));
            }
        }
        lemma_sorted_unique_eq(at, bt);
        assert(a.len() == b.len());
        assert forall|i: int| 0 <= i < a.len() implies a[i] == b[i] by {
            if i > 0 {
                assert(at[i - 1] == bt[i - 1]);
            }
        }
        assert(a =~= b);
    }
}

/// What a whole expression selects on the given axis: any of its tokens
/// selects the index.
pub open spec fn sub_selects(s: Seq<char>, axis: LineColumn, x: usize) -> bool {
    exists|t: Seq<char>| #[trigger]
        split_of(s, ","@).contains(t) && token_selects(t, axis, x)
}

/// Order invariance: two sub-table expressions whose comma-separated
/// tokens are the same as sets, and which both succeed, yield the same
/// result.
pub proof fn lemma_subtable_order_invariance(s1: Seq<char>, s2: Seq<char>)
    requires
        subtable_model(s1) is Ok,
        subtable_model(s2) is Ok,
        forall|t: Seq<char>| #[trigger]
            split_of(s1, ","@).contains(t) <==> #[trigger] split_of(s2, ","@).contains(t),
    ensures
        subtable_model(s1) == subtable_model(s2),
{
    let parts1 = split_of(s1, ","@);
    let parts2 = split_of(s2, ","@);
    let p1 = match subtable_model(s1) {
        Ok(p) => p,
        Err(_) => arbitrary(),
    };
    let p2 = match subtable_model(s2) {
        Ok(p) => p,
        Err(_) => arbitrary(),
    };
    let empty = Seq::<usize>::empty();
    assert(subtable_model(s1) == Ok::<(Seq<usize>, Seq<usize>), ArgErrSpec>(p1));
    assert(subtable_model(s2) == Ok::<(Seq<usize>, Seq<usize>), ArgErrSpec>(p2));
    assert(forall|x: usize| !(#[trigger] empty.contains(x)));
    lemma_sub_run_members(parts1, 0, empty, empty, 0, s1, p1);
    lemma_sub_run_members(parts2, 0, empty, empty, 0, s2, p2);
    lemma_sub_run_sorted(parts1, 0, empty, empty, 0, s1, p1);
    lemma_sub_run_sorted(parts2, 0, empty, empty, 0, s2, p2);
    assert forall|x: usize| #[trigger] p1.0.contains(x) <==> #[trigger] p2.0.contains(x) by {
        if exists|tk: int|
            0 <= tk < parts1.len() && token_selects(#[trigger] parts1[tk], LineColumn::Line, x) {
            let tk = choose|tk: int|
                0 <= tk < parts1.len() && token_selects(#[trigger] parts1[tk], LineColumn::Line, x);
            assert(parts1.contains(parts1[tk]));
            assert(parts2.contains(parts1[tk]));
            let tj = choose|tj: int| 0 <= tj < parts2.len() && parts2[tj] == parts1[tk];
            assert(0 <= tj < parts2.len() && token_selects(parts2[tj], LineColumn::Line, x));
        }
        if exists|tk: int|
            0 <= tk < parts2.len() && token_selects(#[trigger] parts2[tk], LineColumn::Line, x) {
            let tk = choose|tk: int|
                0 <= tk < parts2.len() && token_selects(#[trigger] parts2[tk], LineColumn::Line, x);
            assert(parts2.contains(parts2[tk]));
            assert(parts1.contains(parts2[tk]));
            let tj = choose|tj: int| 0 <= tj < parts1.len() && parts1[tj] == parts2[tk];
            assert(0 <= tj < parts1.len() && token_selects(parts1[tj], LineColumn::Line, x));
        }
    }
    assert forall|x: usize| #[trigger] p1.1.contains(x) <==> #[trigger] p2.1.contains(x) by {
        if exists|tk: int|
            0 <= tk < parts1.len() && token_selects(#[trigger] parts1[tk], LineColumn::Column, x) {
            let tk = choose|tk: int|
                0 <= tk < parts1.len() && token_selects(
                    #[trigger] parts1[tk],
                    LineColumn::Column,
                    x,
                );
            assert(parts1.contains(parts1[tk]));
            assert(parts2.contains(parts1[tk]));
            let tj = choose|tj: int| 0 <= tj < parts2.len() && parts2[tj] == parts1[tk];
            assert(0 <= tj < parts2.len() && token_selects(parts2[tj], LineColumn::Column, x));
        }
        if exists|tk: int|
            0 <= tk < parts2.len() && token_selects(#[trigger] parts2[tk], LineColumn::Column, x) {
            let tk = choose|tk: int|
                0 <= tk < parts2.len() && token_selects(
                    #[trigger] parts2[tk],
                    LineColumn::Column,
                    x,
                );
            assert(parts2.contains(parts2[tk]));
            assert(parts1.contains(parts2[tk]));
            let tj = choose|tj: int| 0 <= tj < parts1.len() && parts1[tj] == parts2[tk];
            assert(0 <= tj < parts1.len() && token_selects(parts1[tj], LineColumn::Column, x));
        }
    }
    lemma_sorted_unique_eq(p1.0, p2.0);
    lemma_sorted_unique_eq(p1.1, p2.1);
}

/* ----------------------- case insensitivity law ----------------------- */

/// Case-equivalent tokens fall in the same sub-table category.
pub proof fn lemma_sub_cat_case(t1: Seq<char>, t2: Seq<char>)
    requires
        crate::setting::select::case_equiv(t1, t2),
    ensures
        sub_cat(t1) == sub_cat(t2),
{
    let n = t1.len() as int;
    if n > 0 {
        crate::setting::select::lemma_case_pointwise(t1, t2);
        crate::setting::select::lemma_digit_run_case(t1, t2, 0);
        let j = digit_run(t1, 0);
        crate::setting::select::lemma_digit_run(t1, 0);
        if j + 1 <= n {
            crate::setting::select::lemma_digit_run_case(t1, t2, j + 1);
            crate::setting::select::lemma_digit_run(t1, j + 1);
            let k = digit_run(t1, j + 1);
            if k <= n {
                crate::setting::select::lemma_clean_in_case(t1, t2, k, n);
                crate::setting::select::lemma_clean_in_case(t1, t2, k + 1, n);
            }
        }
        crate::setting::select::lemma_last_index_case(t1, t2, n - 1);
        crate::setting::select::lemma_last_index_of(t1, '-', n - 1);
        let d = last_index_of(t1, '-', n - 1);
        crate::setting::select::lemma_digits_in_case(t1, t2, d + 1, n - 1);
        crate::setting::select::lemma_clean_in_case(t1, t2, 0, d);
        crate::setting::select::lemma_clean_in_case(t1, t2, j + 1, n - 1);
        crate::setting::select::lemma_clean_in_case(t1, t2, 0, n - 1);
        crate::setting::select::lemma_clean_in_case(t1, t2, 1, n);
        assert(sub_cat0(t1) == sub_cat0(t2));
        assert(sub_cat1(t1) == sub_cat1(t2));
        assert(sub_cat2(t1) == sub_cat2(t2));
        assert(sub_cat3(t1) == sub_cat3(t2));
        assert(sub_cat4(t1) == sub_cat4(t2));
        assert(sub_cat5(t1) == sub_cat5(t2));
        assert(sub_cat6(t1) == sub_cat6(t2));
        assert(sub_cat7(t1) == sub_cat7(t2));
    }
}

/// A successful sub-table run is unmoved by the case of its letters:
/// case-equivalent tokens drive it to the same result.
pub proof fn lemma_sub_run_case(
    parts1: Seq<Seq<char>>,
    parts2: Seq<Seq<char>>,
    k: int,
    lines: Seq<usize>,
    cols: Seq<usize>,
    off1: int,
    off2: int,
    w1: Seq<char>,
    w2: Seq<char>,
    p: (Seq<usize>, Seq<usize>),
)
    requires
        0 <= k <= parts1.len(),
        parts1.len() == parts2.len(),
        forall|m: int|
            0 <= m < parts1.len() ==> crate::setting::select::case_equiv(
                #[trigger] parts1[m],
                parts2[m],
            ),
        sub_run(parts1, k, lines, cols, off1, w1) == Ok::<(Seq<usize>, Seq<usize>), ArgErrSpec>(p),
    ensures
        sub_run(parts2, k, lines, cols, off2, w2) == Ok::<(Seq<usize>, Seq<usize>), ArgErrSpec>(p),
    decreases parts1.len() - k,
{
    if k == parts1.len() {
    } else {
        let t1 = parts1[k];
        let t2 = parts2[k];
        let n = t1.len() as int;
        lemma_sub_cat_case(t1, t2);
        let c = sub_cat(t1);
        assert(c == 0 || c == 1);
        crate::setting::select::lemma_case_pointwise(t1, t2);
        crate::setting::select::lemma_digit_run_case(t1, t2, 0);
        let j = digit_run(t1, 0);
        crate::setting::select::lemma_digit_run(t1, 0);
        crate::setting::select::lemma_digit_run(t1, j + 1);
        if c == 0 {
            assert(t1.subrange(0, j) =~= t2.subrange(0, j));
            assert(t1.subrange(j + 1, n - 1) =~= t2.subrange(j + 1, n - 1));
            let sv = dec_val(t1.subrange(0, j));
            let ev = dec_val(t1.subrange(j + 1, n - 1));
            if sv > usize::MAX || ev > usize::MAX {
            } else if axis_of(t1[n - 1]) == LineColumn::Line {
                lemma_sub_run_case(
                    parts1,
                    parts2,
                    k + 1,
                    idx_expand(lines, sv, ev),
                    cols,
                    off1 + t1.len() + 1,
                    off2 + t2.len() + 1,
                    w1,
                    w2,
                    p,
                );
            } else {
                lemma_sub_run_case(
                    parts1,
                    parts2,
                    k + 1,
                    lines,
                    idx_expand(cols, sv, ev),
                    off1 + t1.len() + 1,
                    off2 + t2.len() + 1,
                    w1,
                    w2,
                    p,
                );
            }
        } else {
            assert(t1.subrange(0, n - 1) =~= t2.subrange(0, n - 1));
            let v = dec_val(t1.subrange(0, n - 1));
            if v > usize::MAX {
            } else if axis_of(t1[n - 1]) == LineColumn::Line {
                lemma_sub_run_case(
                    parts1,
                    parts2,
                    k + 1,
                    idx_insert(lines, v as usize),
                    cols,
                    off1 + t1.len() + 1,
                    off2 + t2.len() + 1,
                    w1,
                    w2,
                    p,
                );
            } else {
                lemma_sub_run_case(
                    parts1,
                    parts2,
                    k + 1,
                    lines,
                    idx_insert(cols, v as usize),
                    off1 + t1.len() + 1,
                    off2 + t2.len() + 1,
                    w1,
                    w2,
                    p,
                );
            }
        }
    }
}

/// Case insensitivity: an expression that succeeds yields the same
/// result when the case of its selector letters changes.
pub proof fn lemma_subtable_case_invariance(s1: Seq<char>, s2: Seq<char>)
    requires
        crate::setting::select::case_equiv(s1, s2),
        subtable_model(s1) is Ok,
    ensures
        subtable_model(s2) == subtable_model(s1),
{
    let p = match subtable_model(s1) {
        Ok(p) => p,
        Err(_) => arbitrary(),
    };
    assert(subtable_model(s1) == Ok::<(Seq<usize>, Seq<usize>), ArgErrSpec>(p));
    proof_strlit_comma();
    crate::setting::select::lemma_split_case(s1, s2);
    lemma_sub_run_case(
        split_of(s1, ","@),
        split_of(s2, ","@),
        0,
        Seq::empty(),
        Seq::empty(),
        0,
        0,
        s1,
        s2,
        p,
    );
}

/// The comma pattern is the one-character sequence of a comma.
proof fn proof_strlit_comma()
    ensures
        ","@ == seq![','],
{
    reveal_strlit(",");
    assert(","@ =~= seq![',']);
}

/// What one well-formed color token binds on the given axis.
pub open spec fn col_token_selects(t: Seq<char>, axis: LineColumn, q: (usize, OutputColor)) -> bool {
    let n = t.len() as int;
    let j = digit_run(t, 0);
    let a = dec_val(t.subrange(0, j));
    let b = dec_val(t.subrange(j + 1, n - 2));
    if col_cat(t) == 0 {
        axis_of(t[n - 1]) == axis && q.1 == color_of(t[n - 2]) && vstd::math::min(a, b)
            <= q.0 as int <= vstd::math::max(a, b)
    } else if col_cat(t) == 1 {
        axis_of(t[n - 1]) == axis && q.1 == color_of(t[n - 2]) && q.0 as int == dec_val(
            t.subrange(0, n - 2),
        )
    } else {
        false
    }
}

/// A successful color run yields buckets that are ordered with strictly
/// increasing indices.
pub proof fn lemma_col_run_ok(
    parts: Seq<Seq<char>>,
    k: int,
    lines: Seq<(usize, OutputColor)>,
    cols: Seq<(usize, OutputColor)>,
    off: int,
    whole: Seq<char>,
    p: (Seq<(usize, OutputColor)>, Seq<(usize, OutputColor)>),
)
    requires
        pairs_sorted(lines),
        pairs_distinct(lines),
        pairs_sorted(cols),
        pairs_distinct(cols),
        col_run(parts, k, lines, cols, off, whole) == Ok::<
            (Seq<(usize, OutputColor)>, Seq<(usize, OutputColor)>),
            ArgErrSpec,
        >(p),
    ensures
        pairs_sorted(p.0),
        pairs_distinct(p.0),
        pairs_sorted(p.1),
        pairs_distinct(p.1),
        forall|i: int, j: int| 0 <= i < j < p.0.len() ==> (#[trigger] p.0[i]).0 < (
        #[trigger] p.0[j]).0,
        forall|i: int, j: int| 0 <= i < j < p.1.len() ==> (#[trigger] p.1[i]).0 < (
        #[trigger] p.1[j]).0,
    decreases parts.len() - k,
{
    if k < 0 || k >= parts.len() {
        assert(p == (lines, cols));
        lemma_first_conflict(lines);
        lemma_first_conflict(cols);
        assert forall|i: int, j: int| 0 <= i < j < p.0.len() implies (#[trigger] p.0[i]).0 < (
        #[trigger] p.0[j]).0 by {
            crate::setting::select::lemma_pairs_adjacent_strict(lines, i, j);
        }
        assert forall|i: int, j: int| 0 <= i < j < p.1.len() implies (#[trigger] p.1[i]).0 < (
        #[trigger] p.1[j]).0 by {
            crate::setting::select::lemma_pairs_adjacent_strict(cols, i, j);
        }
    } else {
        let t = parts[k];
        let n = t.len() as int;
        let j = digit_run(t, 0);
        let c = col_cat(t);
        if c == 0 {
            let sv = dec_val(t.subrange(0, j));
            let ev = dec_val(t.subrange(j + 1, n - 2));
            let color = color_of(t[n - 2]);
            lemma_expand_insert(lines, sv, ev, color);
            lemma_expand_insert(cols, sv, ev, color);
            if axis_of(t[n - 1]) == LineColumn::Line {
                lemma_col_run_ok(parts, k + 1, expand_insert(lines, sv, ev, color), cols, off + t.len() + 1, whole, p);
            } else {
                lemma_col_run_ok(parts, k + 1, lines, expand_insert(cols, sv, ev, color), off + t.len() + 1, whole, p);
            }
        } else if c == 1 {
            let v = dec_val(t.subrange(0, n - 2));
            let color = color_of(t[n - 2]);
            assert(v <= usize::MAX);
            lemma_insert_pair(lines, (v as usize, color));
            lemma_insert_pair(cols, (v as usize, color));
            if axis_of(t[n - 1]) == LineColumn::Line {
                lemma_col_run_ok(parts, k + 1, insert_pair(lines, (v as usize, color)), cols, off + t.len() + 1, whole, p);
            } else {
                lemma_col_run_ok(parts, k + 1, lines, insert_pair(cols, (v as usize, color)), off + t.len() + 1, whole, p);
            }
        }
    }
}

/// The members of a successful color run: the accumulated bindings plus
/// what the remaining tokens bind, on each axis.
pub proof fn lemma_col_run_members(
    parts: Seq<Seq<char>>,
    k: int,
    lines: Seq<(usize, OutputColor)>,
    cols: Seq<(usize, OutputColor)>,
    off: int,
    whole: Seq<char>,
    p: (Seq<(usize, OutputColor)>, Seq<(usize, OutputColor)>),
)
    requires
        0 <= k <= parts.len(),
        pairs_sorted(lines),
        pairs_distinct(lines),
        pairs_sorted(cols),
        pairs_distinct(cols),
        col_run(parts, k, lines, cols, off, whole) == Ok::<
            (Seq<(usize, OutputColor)>, Seq<(usize, OutputColor)>),
            ArgErrSpec,
        >(p),
    ensures
        forall|q: (usize, OutputColor)| #[trigger]
            p.0.contains(q) <==> (lines.contains(q) || exists|tk: int|
                k <= tk < parts.len() && col_token_selects(
                    #[trigger] parts[tk],
                    LineColumn::Line,
                    q,
                )),
        forall|q: (usize, OutputColor)| #[trigger]
            p.1.contains(q) <==> (cols.contains(q) || exists|tk: int|
                k <= tk < parts.len() && col_token_selects(
                    #[trigger] parts[tk],
                    LineColumn::Column,
                    q,
                )),
    decreases parts.len() - k,
{
    if k == parts.len() {
        assert(p == (lines, cols));
    } else {
        let t = parts[k];
        let n = t.len() as int;
        let j = digit_run(t, 0);
        let c = col_cat(t);
        let ax = axis_of(t[n - 1]);
        let color = color_of(t[n - 2]);
        crate::setting::select::lemma_digit_run(t, 0);
        crate::setting::select::lemma_digit_run(t, j + 1);
        assert(c == 0 || c == 1);
        let sv = if c == 0 {
            dec_val(t.subrange(0, j))
        } else {
            dec_val(t.subrange(0, n - 2))
        };
        let ev = if c == 0 {
            dec_val(t.subrange(j + 1, n - 2))
        } else {
            sv
        };
        if c == 0 {
            assert(digits_in(t.subrange(0, j), 0, t.subrange(0, j).len() as int)) by {
                assert(forall|y: int| 0 <= y < j ==> #[trigger] t.subrange(0, j)[y] == t[y]);
            }
            assert(digits_in(
                t.subrange(j + 1, n - 2),
                0,
                t.subrange(j + 1, n - 2).len() as int,
            )) by {
                assert(forall|y: int|
                    0 <= y < n - 2 - (j + 1) ==> #[trigger] t.subrange(j + 1, n - 2)[y] == t[j + 1
                        + y]);
            }
            crate::text::lemma_dec_val_nonneg(t.subrange(0, j));
            crate::text::lemma_dec_val_nonneg(t.subrange(j + 1, n - 2));
        } else {
            assert(digits_in(t.subrange(0, n - 2), 0, t.subrange(0, n - 2).len() as int)) by {
                assert(forall|y: int| 0 <= y < n - 2 ==> #[trigger] t.subrange(0, n - 2)[y] == t[y]);
            }
            crate::text::lemma_dec_val_nonneg(t.subrange(0, n - 2));
        }
        assert(sv <= usize::MAX && ev <= usize::MAX);
        let lines2: Seq<(usize, OutputColor)> = if ax == LineColumn::Line {
            if c == 0 {
                expand_insert(lines, sv, ev, color)
            } else {
                insert_pair(lines, (sv as usize, color))
            }
        } else {
            lines
        };
        let cols2: Seq<(usize, OutputColor)> = if ax == LineColumn::Column {
            if c == 0 {
                expand_insert(cols, sv, ev, color)
            } else {
                insert_pair(cols, (sv as usize, color))
            }
        } else {
            cols
        };
        if c == 0 {
            lemma_expand_insert(lines, sv, ev, color);
            lemma_expand_insert(cols, sv, ev, color);
            crate::setting::select::lemma_expand_insert_members(lines, sv, ev, color);
            crate::setting::select::lemma_expand_insert_members(cols, sv, ev, color);
        } else {
            lemma_insert_pair(lines, (sv as usize, color));
            lemma_insert_pair(cols, (sv as usize, color));
        }
        assert(col_run(parts, k + 1, lines2, cols2, off + t.len() + 1, whole) == Ok::<
            (Seq<(usize, OutputColor)>, Seq<(usize, OutputColor)>),
            ArgErrSpec,
        >(p));
        lemma_col_run_members(parts, k + 1, lines2, cols2, off + t.len() + 1, whole, p);
        assert forall|q: (usize, OutputColor)| #[trigger]
            p.0.contains(q) <==> (lines.contains(q) || exists|tk: int|
                k <= tk < parts.len() && col_token_selects(
                    #[trigger] parts[tk],
                    LineColumn::Line,
                    q,
                )) by {
            assert(p.0.contains(q) <==> (lines2.contains(q) || exists|tk: int|
                k + 1 <= tk < parts.len() && col_token_selects(
                    #[trigger] parts[tk],
                    LineColumn::Line,
                    q,
                )));
            assert(lines2.contains(q) <==> (lines.contains(q) || col_token_selects(
                parts[k],
                LineColumn::Line,
                q,
            )));
            if col_token_selects(parts[k], LineColumn::Line, q) {
                assert(k <= k < parts.len() && col_token_selects(parts[k], LineColumn::Line, q));
            }
            if exists|tk: int|
                k + 1 <= tk < parts.len() && col_token_selects(
                    #[trigger] parts[tk],
                    LineColumn::Line,
                    q,
                ) {
                let tk = choose|tk: int|
                    k + 1 <= tk < parts.len() && col_token_selects(
                        #[trigger] parts[tk],
                        LineColumn::Line,
                        q,
                    );
                assert(k <= tk < parts.len() && col_token_selects(parts[tk], LineColumn::Line, q));
            }
            if exists|tk: int|
                k <= tk < parts.len() && col_token_selects(
                    #[trigger] parts[tk],
                    LineColumn::Line,
                    q,
                ) {
                let tk = choose|tk: int|
                    k <= tk < parts.len() && col_token_selects(
                        #[trigger] parts[tk],
                        LineColumn::Line,
                        q,
                    );
                if tk > k {
                    assert(k + 1 <= tk < parts.len() && col_token_selects(
                        parts[tk],
                        LineColumn::Line,
                        q,
                    ));
                }
            }
        }
        assert forall|q: (usize, OutputColor)| #[trigger]
            p.1.contains(q) <==> (cols.contains(q) || exists|tk: int|
                k <= tk < parts.len() && col_token_selects(
                    #[trigger] parts[tk],
                    LineColumn::Column,
                    q,
                )) by {
            assert(p.1.contains(q) <==> (cols2.contains(q) || exists|tk: int|
                k + 1 <= tk < parts.len() && col_token_selects(
                    #[trigger] parts[tk],
                    LineColumn::Column,
                    q,
                )));
            assert(cols2.contains(q) <==> (cols.contains(q) || col_token_selects(
                parts[k],
                LineColumn::Column,
                q,
            )));
            if col_token_selects(parts[k], LineColumn::Column, q) {
                assert(k <= k < parts.len() && col_token_selects(parts[k], LineColumn::Column, q));
            }
            if exists|tk: int|
                k + 1 <= tk < parts.len() && col_token_selects(
                    #[trigger] parts[tk],
                    LineColumn::Column,
                    q,
                ) {
                let tk = choose|tk: int|
                    k + 1 <= tk < parts.len() && col_token_selects(
                        #[trigger] parts[tk],
                        LineColumn::Column,
                        q,
                    );
                assert(k <= tk < parts.len() && col_token_selects(
                    parts[tk],
                    LineColumn::Column,
                    q,
                ));
            }
            if exists|tk: int|
                k <= tk < parts.len() && col_token_selects(
                    #[trigger] parts[tk],
                    LineColumn::Column,
                    q,
                ) {
                let tk = choose|tk: int|
                    k <= tk < parts.len() && col_token_selects(
                        #[trigger] parts[tk],
                        LineColumn::Column,
                        q,
                    );
                if tk > k {
                    assert(k + 1 <= tk < parts.len() && col_token_selects(
                        parts[tk],
                        LineColumn::Column,
                        q,
                    ));
                }
            }
        }
    }
}

/// Characters that fold alike agree on being a color letter, and on the
/// color a letter names.
proof fn lemma_fold_color(a: char, b: char)
    requires
        crate::setting::select::fold_letter(a) == crate::setting::select::fold_letter(b),
    ensures
        is_color_char(a) == is_color_char(b),
        is_color_char(a) ==> color_of(a) == color_of(b),
{
}

/// Case-equivalent tokens fall in the same color category.
pub proof fn lemma_col_cat_case(t1: Seq<char>, t2: Seq<char>)
    requires
        crate::setting::select::case_equiv(t1, t2),
    ensures
        col_cat(t1) == col_cat(t2),
{
    let n = t1.len() as int;
    if n >= 1 {
        crate::setting::select::lemma_case_pointwise(t1, t2);
        crate::setting::select::lemma_digit_run_case(t1, t2, 0);
        let j = digit_run(t1, 0);
        crate::setting::select::lemma_digit_run(t1, 0);
        if j < n {
            lemma_fold_color(t1[j], t2[j]);
        }
        if j + 1 <= n {
            crate::setting::select::lemma_digit_run_case(t1, t2, j + 1);
            crate::setting::select::lemma_digit_run(t1, j + 1);
            let k = digit_run(t1, j + 1);
            if k < n {
                lemma_fold_color(t1[k], t2[k]);
            }
            if k + 1 <= n {
                crate::setting::select::lemma_clean_in_case(t1, t2, k + 1, n);
            }
        }
        crate::setting::select::lemma_clean_in_case(t1, t2, j + 1, n);
        if n >= 2 {
            lemma_fold_color(t1[n - 2], t2[n - 2]);
            crate::setting::select::lemma_last_index_case(t1, t2, n - 2);
            crate::setting::select::lemma_last_index_of(t1, '-', n - 2);
            let d = last_index_of(t1, '-', n - 2);
            crate::setting::select::lemma_digits_in_case(t1, t2, d + 1, n - 2);
            crate::setting::select::lemma_clean_in_case(t1, t2, 0, d);
            crate::setting::select::lemma_clean_in_case(t1, t2, j + 1, n - 2);
            crate::setting::select::lemma_clean_in_case(t1, t2, 0, n - 2);
            crate::setting::select::lemma_clean_in_case(t1, t2, j + 2, n - 1);
            crate::setting::select::lemma_clean_in_case(t1, t2, 1, n - 1);
        }
        assert(col_cat0(t1) == col_cat0(t2));
        assert(col_cat1(t1) == col_cat1(t2));
        assert(col_cat2(t1) == col_cat2(t2));
        assert(col_cat3(t1) == col_cat3(t2));
        assert(col_cat4(t1) == col_cat4(t2));
        assert(col_cat5(t1) == col_cat5(t2));
        assert(col_cat6(t1) == col_cat6(t2));
        assert(col_cat7(t1) == col_cat7(t2));
        assert(col_cat8(t1) == col_cat8(t2));
        assert(col_cat9(t1) == col_cat9(t2));
    }
}

/// A successful color run is unmoved by the case of its letters:
/// case-equivalent tokens drive it to the same bindings.
pub proof fn lemma_col_run_case(
    parts1: Seq<Seq<char>>,
    parts2: Seq<Seq<char>>,
    k: int,
    lines: Seq<(usize, OutputColor)>,
    cols: Seq<(usize, OutputColor)>,
    off1: int,
    off2: int,
    w1: Seq<char>,
    w2: Seq<char>,
    p: (Seq<(usize, OutputColor)>, Seq<(usize, OutputColor)>),
)
    requires
        0 <= k <= parts1.len(),
        parts1.len() == parts2.len(),
        forall|m: int|
            0 <= m < parts1.len() ==> crate::setting::select::case_equiv(
                #[trigger] parts1[m],
                parts2[m],
            ),
        col_run(parts1, k, lines, cols, off1, w1) == Ok::<
            (Seq<(usize, OutputColor)>, Seq<(usize, OutputColor)>),
            ArgErrSpec,
        >(p),
    ensures
        col_run(parts2, k, lines, cols, off2, w2) == Ok::<
            (Seq<(usize, OutputColor)>, Seq<(usize, OutputColor)>),
            ArgErrSpec,
        >(p),
    decreases parts1.len() - k,
{
    if k == parts1.len() {
    } else {
        let t1 = parts1[k];
        let t2 = parts2[k];
        let n = t1.len() as int;
        lemma_col_cat_case(t1, t2);
        let c = col_cat(t1);
        assert(c == 0 || c == 1);
        crate::setting::select::lemma_case_pointwise(t1, t2);
        lemma_fold_color(t1[n - 2], t2[n - 2]);
        crate::setting::select::lemma_digit_run_case(t1, t2, 0);
        let j = digit_run(t1, 0);
        crate::setting::select::lemma_digit_run(t1, 0);
        crate::setting::select::lemma_digit_run(t1, j + 1);
        let axis = axis_of(t1[n - 1]);
        let color = color_of(t1[n - 2]);
        if c == 0 {
            assert(t1.subrange(0, j) =~= t2.subrange(0, j));
            assert(t1.subrange(j + 1, n - 2) =~= t2.subrange(j + 1, n - 2));
            let sv = dec_val(t1.subrange(0, j));
            let ev = dec_val(t1.subrange(j + 1, n - 2));
            if sv > usize::MAX || ev > usize::MAX {
            } else if axis == LineColumn::Line {
                lemma_col_run_case(
                    parts1,
                    parts2,
                    k + 1,
                    expand_insert(lines, sv, ev, color),
                    cols,
                    off1 + t1.len() + 1,
                    off2 + t2.len() + 1,
                    w1,
                    w2,
                    p,
                );
            } else {
                lemma_col_run_case(
                    parts1,
                    parts2,
                    k + 1,
                    lines,
                    expand_insert(cols, sv, ev, color),
                    off1 + t1.len() + 1,
                    off2 + t2.len() + 1,
                    w1,
                    w2,
                    p,
                );
            }
        } else {
            assert(t1.subrange(0, n - 2) =~= t2.subrange(0, n - 2));
            let v = dec_val(t1.subrange(0, n - 2));
            if v > usize::MAX {
            } else if axis == LineColumn::Line {
                lemma_col_run_case(
                    parts1,
                    parts2,
                    k + 1,
                    insert_pair(lines, (v as usize, color)),
                    cols,
                    off1 + t1.len() + 1,
                    off2 + t2.len() + 1,
                    w1,
                    w2,
                    p,
                );
            } else {
                lemma_col_run_case(
                    parts1,
                    parts2,
                    k + 1,
                    lines,
                    insert_pair(cols, (v as usize, color)),
                    off1 + t1.len() + 1,
                    off2 + t2.len() + 1,
                    w1,
                    w2,
                    p,
                );
            }
        }
    }
}

/// Case insensitivity: a color expression that succeeds yields the same
/// bindings when the case of its letters changes.
pub proof fn lemma_color_case_invariance(s1: Seq<char>, s2: Seq<char>)
    requires
        crate::setting::select::case_equiv(s1, s2),
        color_model(s1) is Ok,
    ensures
        color_model(s2) == color_model(s1),
{
    let p = match color_model(s1) {
        Ok(p) => p,
        Err(_) => arbitrary(),
    };
    assert(color_model(s1) == Ok::<
        (Seq<(usize, OutputColor)>, Seq<(usize, OutputColor)>),
        ArgErrSpec,
    >(p));
    proof_strlit_comma();
    crate::setting::select::lemma_split_case(s1, s2);
    lemma_col_run_case(
        split_of(s1, ","@),
        split_of(s2, ","@),
        0,
        Seq::empty(),
        Seq::empty(),
        0,
        0,
        s1,
        s2,
        p,
    );
}

/// Order invariance: two color expressions whose comma-separated tokens
/// are the same as sets, and which both succeed, yield the same result.
pub proof fn lemma_color_order_invariance(s1: Seq<char>, s2: Seq<char>)
    requires
        color_model(s1) is Ok,
        color_model(s2) is Ok,
        forall|t: Seq<char>| #[trigger]
            split_of(s1, ","@).contains(t) <==> #[trigger] split_of(s2, ","@).contains(t),
    ensures
        color_model(s1) == color_model(s2),
{
    let parts1 = split_of(s1, ","@);
    let parts2 = split_of(s2, ","@);
    let p1 = match color_model(s1) {
        Ok(p) => p,
        Err(_) => arbitrary(),
    };
    let p2 = match color_model(s2) {
        Ok(p) => p,
        Err(_) => arbitrary(),
    };
    let empty = Seq::<(usize, OutputColor)>::empty();
    assert(color_model(s1) == Ok::<
        (Seq<(usize, OutputColor)>, Seq<(usize, OutputColor)>),
        ArgErrSpec,
    >(p1));
    assert(color_model(s2) == Ok::<
        (Seq<(usize, OutputColor)>, Seq<(usize, OutputColor)>),
        ArgErrSpec,
    >(p2));
    assert(forall|q: (usize, OutputColor)| !(#[trigger] empty.contains(q)));
    lemma_col_run_members(parts1, 0, empty, empty, 0, s1, p1);
    lemma_col_run_members(parts2, 0, empty, empty, 0, s2, p2);
    lemma_col_run_ok(parts1, 0, empty, empty, 0, s1, p1);
    lemma_col_run_ok(parts2, 0, empty, empty, 0, s2, p2);
    assert forall|q: (usize, OutputColor)| #[trigger]
        p1.0.contains(q) <==> #[trigger] p2.0.contains(q) by {
        if exists|tk: int|
            0 <= tk < parts1.len() && col_token_selects(
                #[trigger] parts1[tk],
                LineColumn::Line,
                q,
            ) {
            let tk = choose|tk: int|
                0 <= tk < parts1.len() && col_token_selects(
                    #[trigger] parts1[tk],
                    LineColumn::Line,
                    q,
                );
            assert(parts1.contains(parts1[tk]));
            assert(parts2.contains(parts1[tk]));
            let tj = choose|tj: int| 0 <= tj < parts2.len() && parts2[tj] == parts1[tk];
            assert(0 <= tj < parts2.len() && col_token_selects(parts2[tj], LineColumn::Line, q));
        }
        if exists|tk: int|
            0 <= tk < parts2.len() && col_token_selects(
                #[trigger] parts2[tk],
                LineColumn::Line,
                q,
            ) {
            let tk = choose|tk: int|
                0 <= tk < parts2.len() && col_token_selects(
                    #[trigger] parts2[tk],
                    LineColumn::Line,
                    q,
                );
            assert(parts2.contains(parts2[tk]));
            assert(parts1.contains(parts2[tk]));
            let tj = choose|tj: int| 0 <= tj < parts1.len() && parts1[tj] == parts2[tk];
            assert(0 <= tj < parts1.len() && col_token_selects(parts1[tj], LineColumn::Line, q));
        }
    }
    assert forall|q: (usize, OutputColor)| #[trigger]
        p1.1.contains(q) <==> #[trigger] p2.1.contains(q) by {
        if exists|tk: int|
            0 <= tk < parts1.len() && col_token_selects(
                #[trigger] parts1[tk],
                LineColumn::Column,
                q,
            ) {
            let tk = choose|tk: int|
                0 <= tk < parts1.len() && col_token_selects(
                    #[trigger] parts1[tk],
                    LineColumn::Column,
                    q,
                );
            assert(parts1.contains(parts1[tk]));
            assert(parts2.contains(parts1[tk]));
            let tj = choose|tj: int| 0 <= tj < parts2.len() && parts2[tj] == parts1[tk];
            assert(0 <= tj < parts2.len() && col_token_selects(parts2[tj], LineColumn::Column, q));
        }
        if exists|tk: int|
            0 <= tk < parts2.len() && col_token_selects(
                #[trigger] parts2[tk],
                LineColumn::Column,
                q,
            ) {
            let tk = choose|tk: int|
                0 <= tk < parts2.len() && col_token_selects(
                    #[trigger] parts2[tk],
                    LineColumn::Column,
                    q,
                );
            assert(parts2.contains(parts2[tk]));
            assert(parts1.contains(parts2[tk]));
            let tj = choose|tj: int| 0 <= tj < parts1.len() && parts1[tj] == parts2[tk];
            assert(0 <= tj < parts1.len() && col_token_selects(parts1[tj], LineColumn::Column, q));
        }
    }
    crate::setting::select::lemma_pairs_strict_eq(p1.0, p2.0);
    crate::setting::select::lemma_pairs_strict_eq(p1.1, p2.1);
}

} // verus!
