//! Input settings: the force-parse selector expression, which binds
//! lines or columns to a forced cell type.

use vstd::prelude::*;
use vstd::string::{StrSliceExecFns, StringExecFns};
use crate::error::arg_error::ArgError;
use crate::error::range_error::RangeErrorKind;
use crate::setting::LineColumn;
use crate::setting::axis_of;
use crate::setting::is_axis_char;
use crate::setting::select::{
    ArgErrSpec, arg_error_is, wrong_format_err, range_err, keyword_err, axis_conflict_err,
    dup_conflict_err, err_wrong_format, err_range, err_keyword, err_axis_conflict,
    err_dup_conflict, pair_string, digit_run, digit_run_end, last_index_of, last_char_before,
    clean_between, digits_between, insert_pos, insert_pair, expand_insert, expand_insert_from,
    pairs_sorted, pairs_distinct, first_conflict, lemma_insert_pos, lemma_insert_pair,
    lemma_expand_insert,
    lemma_first_conflict, lemma_first_conflict_is, off_trim, lemma_off_trim_bound,
};
use crate::text::{
    is_digit, digits_in, clean_in, dec_val, len_sum, dec_of_nat, parse_dec, lemma_split_len_sum,
    lemma_len_sum_nonneg, lemma_trim_len, split_of, split_str, trim_of, trim_str,
};

verus! {

/// Whether cells are parsed automatically or all forced to strings.
#[derive(Clone, Copy, PartialEq, Eq, Structural, Debug)]
pub enum ParseMode {
    A,
    S,
}

/// The cell type a line or column is forced to: string, integer or
/// float.
#[derive(Debug, Clone, Copy, PartialEq, Eq, Structural)]
pub enum ForceType {
    S,
    I,
    F,
}

/// True for the six force-type letters.
pub open spec fn is_type_char(c: char) -> bool {
    c == 's' || c == 'i' || c == 'f' || c == 'S' || c == 'I' || c == 'F'
}

/// The force type selected by a type letter.
pub open spec fn ft_of(c: char) -> ForceType {
    if c == 's' || c == 'S' {
        ForceType::S
    } else if c == 'i' || c == 'I' {
        ForceType::I
    } else {
        ForceType::F
    }
}

/// The name of a force type, as diagnostics spell it.
pub open spec fn ft_name(t: ForceType) -> Seq<char> {
    match t {
        ForceType::S => "S"@,
        ForceType::I => "I"@,
        ForceType::F => "F"@,
    }
}

impl ForceType {
    /// Decodes a type letter, case-insensitively.
    pub fn from_char(c: char) -> (r: ForceType)
        requires
            is_type_char(c),
        ensures
            r == ft_of(c),
    {
        if c == 's' || c == 'S' {
            ForceType::S
        } else if c == 'i' || c == 'I' {
            ForceType::I
        } else {
            ForceType::F
        }
    }

    /// Decodes a one-letter type code.
    pub fn from_str(s: &str) -> (r: Result<ForceType, ()>)
        ensures
            r matches Ok(t) ==> s@.len() == 1 && is_type_char(s@[0]) && t == ft_of(s@[0]),
            r is Err ==> !(s@.len() == 1 && is_type_char(s@[0])),
    {
        if s.unicode_len() != 1 {
            return Err(());
        }
        let c = s.get_char(0);
        if c == 's' || c == 'S' || c == 'i' || c == 'I' || c == 'f' || c == 'F' {
            Ok(ForceType::from_char(c))
        } else {
            Err(())
        }
    }

    /// The name of this force type.
    pub fn to_string(&self) -> (r: String)
        ensures
            r@ == ft_name(*self),
    {
        match self {
            ForceType::S => String::from_str("S"),
            ForceType::I => String::from_str("I"),
            ForceType::F => String::from_str("F"),
        }
    }
}

/* ------------------------ force token grammar ------------------------- */

/// Well-formed range: digits, a dash, digits, an axis letter, a type
/// letter.
pub open spec fn force_cat0(t: Seq<char>) -> bool {
    let n = t.len() as int;
    let j = digit_run(t, 0);
    n >= 3 && is_type_char(t[n - 1]) && is_axis_char(t[n - 2]) && j >= 1 && t[j] == '-' && j + 1
        < n - 2 && digit_run(t, j + 1) == n - 2
}

/// Well-formed single: digits, an axis letter, a type letter.
pub open spec fn force_cat1(t: Seq<char>) -> bool {
    let n = t.len() as int;
    n >= 3 && is_type_char(t[n - 1]) && is_axis_char(t[n - 2]) && digit_run(t, 0) == n - 2
}

/// Malformed right bound of a range.
pub open spec fn force_cat2(t: Seq<char>) -> bool {
    let n = t.len() as int;
    let j = digit_run(t, 0);
    n >= 3 && is_type_char(t[n - 1]) && is_axis_char(t[n - 2]) && j >= 1 && j < n - 2 && t[j]
        == '-' && clean_in(t, j + 1, n - 2)
}

/// Malformed left bound of a range.
pub open spec fn force_cat3(t: Seq<char>) -> bool {
    let n = t.len() as int;
    let d = last_index_of(t, '-', n - 2);
    n >= 3 && is_type_char(t[n - 1]) && is_axis_char(t[n - 2]) && d >= 0 && d + 1 < n - 2
        && digits_in(t, d + 1, n - 2) && clean_in(t, 0, d)
}

/// Malformed on both sides of the dash.
pub open spec fn force_cat4(t: Seq<char>) -> bool {
    let n = t.len() as int;
    n >= 3 && is_type_char(t[n - 1]) && is_axis_char(t[n - 2]) && last_index_of(t, '-', n - 2) >= 0
        && clean_in(t, 0, n - 2)
}

/// Malformed single number before the suffix letters.
pub open spec fn force_cat5(t: Seq<char>) -> bool {
    let n = t.len() as int;
    n >= 2 && is_type_char(t[n - 1]) && is_axis_char(t[n - 2]) && clean_in(t, 0, n - 2)
}

/// Type letter missing after a range with an axis letter.
pub open spec fn force_cat6(t: Seq<char>) -> bool {
    let n = t.len() as int;
    let j = digit_run(t, 0);
    let k = digit_run(t, j + 1);
    j >= 1 && j < n && t[j] == '-' && k > j + 1 && k < n && is_axis_char(t[k]) && clean_in(
        t,
        k + 1,
        n,
    )
}

/// Type letter missing after a single number with an axis letter.
pub open spec fn force_cat7(t: Seq<char>) -> bool {
    let n = t.len() as int;
    let j = digit_run(t, 0);
    j >= 1 && j < n && is_axis_char(t[j]) && clean_in(t, j + 1, n)
}

/// Axis letter missing in a range.
pub open spec fn force_cat8(t: Seq<char>) -> bool {
    let n = t.len() as int;
    let j = digit_run(t, 0);
    n >= 2 && is_type_char(t[n - 1]) && j >= 1 && t[j] == '-' && j + 1 <= n - 2 && is_digit(
        t[j + 1],
    ) && clean_in(t, j + 2, n - 1)
}

/// Axis letter missing after a single number.
pub open spec fn force_cat9(t: Seq<char>) -> bool {
    let n = t.len() as int;
    n >= 2 && is_type_char(t[n - 1]) && is_digit(t[0]) && clean_in(t, 1, n - 1)
}

/// The first matching category of the ordered force grammar, or `-1`
/// when none matches.
pub open spec fn force_cat(t: Seq<char>) -> int {
    if force_cat0(t) {
        0
    } else if force_cat1(t) {
        1
    } else if force_cat2(t) {
        2
    } else if force_cat3(t) {
        3
    } else if force_cat4(t) {
        4
    } else if force_cat5(t) {
        5
    } else if force_cat6(t) {
        6
    } else if force_cat7(t) {
        7
    } else if force_cat8(t) {
        8
    } else if force_cat9(t) {
        9
    } else {
        -1
    }
}

/// Classifies one force token against the ordered categories.
fn classify_force(t: &str) -> (c: i32)
    ensures
        c == force_cat(t@),
{
    let n = t.unicode_len();
    if n == 0 {
        return -1;
    }
    let last = t.get_char(n - 1);
    let ty = last == 's' || last == 'i' || last == 'f' || last == 'S' || last == 'I' || last == 'F';
    let ax2 = if n >= 2 {
        let p = t.get_char(n - 2);
        p == 'l' || p == 'c' || p == 'L' || p == 'C'
    } else {
        false
    };
    let j = digit_run_end(t, 0);
    let c0 = ty && ax2 && n >= 3 && j >= 1 && j + 1 < n - 2 && t.get_char(j) == '-'
        && digit_run_end(t, j + 1) == n - 2;
    if c0 {
        return 0;
    }
    let c1 = ty && ax2 && n >= 3 && j == n - 2;
    if c1 {
        return 1;
    }
    let c2 = ty && ax2 && n >= 3 && j >= 1 && j < n - 2 && t.get_char(j) == '-' && clean_between(
        t,
        j + 1,
        n - 2,
    );
    if c2 {
        return 2;
    }
    let dash = if n >= 2 {
        last_char_before(t, '-', n - 2)
    } else {
        None
    };
    proof {
        if n >= 2 {
            crate::setting::select::lemma_last_index_of(t@, '-', n - 2);
        }
    }
    let c3 = ty && ax2 && n >= 3 && match dash {
        Some(d) => d + 1 < n - 2 && digits_between(t, d + 1, n - 2) && clean_between(t, 0, d),
        None => false,
    };
    if c3 {
        return 3;
    }
    let c4 = ty && ax2 && n >= 3 && dash.is_some() && clean_between(t, 0, n - 2);
    if c4 {
        return 4;
    }
    let c5 = ty && ax2 && clean_between(t, 0, n - 2);
    if c5 {
        return 5;
    }
    let c6 = j >= 1 && j < n && t.get_char(j) == '-' && {
        let k = digit_run_end(t, j + 1);
        k > j + 1 && k < n && {
            let p = t.get_char(k);
            (p == 'l' || p == 'c' || p == 'L' || p == 'C') && clean_between(t, k + 1, n)
        }
    };
    if c6 {
        return 6;
    }
    let c7 = j >= 1 && j < n && {
        let p = t.get_char(j);
        (p == 'l' || p == 'c' || p == 'L' || p == 'C') && clean_between(t, j + 1, n)
    };
    if c7 {
        return 7;
    }
    let c8 = ty && n >= 2 && j >= 1 && j < n && t.get_char(j) == '-' && j + 1 <= n - 2 && {
        let d2 = t.get_char(j + 1);
        48 <= (d2 as u32) && (d2 as u32) <= 57 && clean_between(t, j + 2, n - 1)
    };
    if c8 {
        return 8;
    }
    let first = t.get_char(0);
    let c9 = ty && n >= 2 && 48 <= (first as u32) && (first as u32) <= 57 && clean_between(
        t,
        1,
        n - 1,
    );
    if c9 {
        return 9;
    }
    -1
}

/* ------------------------- force aggregation ------------------------- */

/// A force binding rendered as `(index, Type)`, as conflict diagnostics
/// name it.
pub open spec fn force_pair_text(p: (usize, ForceType)) -> Seq<char> {
    "("@ + dec_of_nat(p.0 as nat) + ", "@ + ft_name(p.1) + ")"@
}

/// The post-processing of a force-parse expression: an expression that
/// never named an axis fails; the first index bound to two different
/// types is a conflict; otherwise the bindings stand with their axis.
pub open spec fn force_finalize(
    acc: Seq<(usize, ForceType)>,
    lc: Option<LineColumn>,
    whole: Seq<char>,
) -> Result<(Seq<(usize, ForceType)>, LineColumn), ArgErrSpec> {
    match lc {
        None => Err(keyword_err("line or column"@, whole, whole, None)),
        Some(axis) => {
            let f = first_conflict(acc);
            if f >= 0 {
                Err(dup_conflict_err(whole, force_pair_text(acc[f]), force_pair_text(acc[f + 1])))
            } else {
                Ok((acc, axis))
            }
        },
    }
}

/// One step of the force-parse aggregator: trim and classify token `k`,
/// abort on the first malformed token or axis conflict, else collect its
/// bindings; after the last token, check the axis and the bindings.
pub open spec fn force_run(
    parts: Seq<Seq<char>>,
    k: int,
    acc: Seq<(usize, ForceType)>,
    lc: Option<LineColumn>,
    off: int,
    whole: Seq<char>,
) -> Result<(Seq<(usize, ForceType)>, LineColumn), ArgErrSpec>
    decreases parts.len() - k,
{
    if k < 0 || k >= parts.len() {
        force_finalize(acc, lc, whole)
    } else {
        let t = trim_of(parts[k]);
        let n = t.len() as int;
        let span = (off, off + t.len());
        let c = force_cat(t);
        if c == -1 {
            Err(
                wrong_format_err(
                    "There is more than one error in this part."@,
                    t,
                    whole,
                    Some(span),
                ),
            )
        } else if c == 0 {
            let j = digit_run(t, 0);
            let sv = dec_val(t.subrange(0, j));
            let ev = dec_val(t.subrange(j + 1, n - 2));
            let axis = axis_of(t[n - 2]);
            let ft = ft_of(t[n - 1]);
            if sv > usize::MAX || ev > usize::MAX {
                Err(range_err(RangeErrorKind::OutOfRange, t, whole, span))
            } else if lc matches Some(l) && l != axis {
                Err(axis_conflict_err(t, whole, span))
            } else {
                force_run(
                    parts,
                    k + 1,
                    expand_insert(acc, sv, ev, ft),
                    Some(axis),
                    off + t.len() + 1,
                    whole,
                )
            }
        } else if c == 1 {
            let v = dec_val(t.subrange(0, n - 2));
            let axis = axis_of(t[n - 2]);
            let ft = ft_of(t[n - 1]);
            if v > usize::MAX {
                Err(range_err(RangeErrorKind::OutOfRange, t, whole, span))
            } else if lc matches Some(l) && l != axis {
                Err(axis_conflict_err(t, whole, span))
            } else {
                force_run(
                    parts,
                    k + 1,
                    insert_pair(acc, (v as usize, ft)),
                    Some(axis),
                    off + t.len() + 1,
                    whole,
                )
            }
        } else if c == 2 {
            Err(range_err(RangeErrorKind::RightSideError, t, whole, span))
        } else if c == 3 {
            Err(range_err(RangeErrorKind::LeftSideError, t, whole, span))
        } else if c == 4 {
            Err(range_err(RangeErrorKind::BothSidesError, t, whole, span))
        } else if c == 5 {
            Err(range_err(RangeErrorKind::SingleNumberError, t, whole, span))
        } else if c == 6 || c == 7 {
            Err(keyword_err("type"@, t, whole, Some(span)))
        } else {
            Err(keyword_err("line or column"@, t, whole, Some(span)))
        }
    }
}

/// What a force-parse expression denotes: the ordered, conflict-free
/// type bindings and the one axis they apply to, or the diagnostic of
/// the first fault.
pub open spec fn force_model(s: Seq<char>) -> Result<
    (Seq<(usize, ForceType)>, LineColumn),
    ArgErrSpec,
> {
    force_run(split_of(s, ","@), 0, Seq::empty(), None, 0, s)
}

/// Inserts a force binding into an ordered, duplicate-free vector.
fn insert_force_pair(v: &mut Vec<(usize, ForceType)>, p: (usize, ForceType))
    requires
        pairs_sorted(old(v)@),
        pairs_distinct(old(v)@),
    ensures
        final(v)@ == insert_pair(old(v)@, p),
        pairs_sorted(final(v)@),
        pairs_distinct(final(v)@),
{
    proof {
        lemma_insert_pair(old(v)@, p);
    }
    let mut pos: usize = 0;
    loop
        invariant
            pos <= v@.len(),
            v@ == old(v)@,
            pairs_sorted(v@),
            pairs_distinct(v@),
            forall|k: int| 0 <= k < pos ==> (#[trigger] v@[k]).0 <= p.0 && v@[k] != p,
        ensures
            pos <= v@.len(),
            v@ == old(v)@,
            forall|k: int| 0 <= k < pos ==> (#[trigger] v@[k]).0 <= p.0 && v@[k] != p,
            pos < v@.len() ==> v@[pos as int].0 > p.0 || v@[pos as int] == p,
        decreases v@.len() - pos,
    {
        if pos >= v.len() {
            break;
        }
        let q = v[pos];
        if q.0 > p.0 {
            break;
        }
        if q.0 == p.0 && q.1 == p.1 {
            break;
        }
        pos = pos + 1;
    }
    if pos < v.len() {
        let q = v[pos];
        if q.0 == p.0 && q.1 == p.1 {
            proof {
                assert(old(v)@.contains(p)) by {
                    assert(old(v)@[pos as int] == p);
                }
            }
            return;
        }
    }
    proof {
        assert(!old(v)@.contains(p)) by {
            if old(v)@.contains(p) {
                let k = choose|k: int| 0 <= k < old(v)@.len() && old(v)@[k] == p;
                if k < pos {
                    assert(old(v)@[k] != p);
                } else {
                    assert(old(v)@[pos as int].0 > p.0);
                    assert(old(v)@[pos as int].0 <= old(v)@[k].0);
                }
            }
        }
        assert(insert_pos(old(v)@, p.0) == pos as int) by {
            lemma_insert_pos(old(v)@, p.0);
            let q = insert_pos(old(v)@, p.0);
            if q < pos {
                assert(old(v)@[q].0 <= p.0);
                assert(old(v)@[q].0 > p.0);
            }
            if q > pos {
                assert(pos < old(v)@.len());
                assert(old(v)@[pos as int].0 <= p.0);
                assert(old(v)@[pos as int].0 > p.0);
            }
        }
    }
    v.insert(pos, p);
    proof {
        assert(v@ =~= old(v)@.take(pos as int) + seq![p] + old(v)@.skip(pos as int));
        lemma_insert_pair(old(v)@, p);
    }
}

/// Inserts a force binding for every index between `start` and `end`,
/// taken as an unordered pair: an inverted range covers the same
/// interval.
fn insert_force_range(v: &mut Vec<(usize, ForceType)>, start: usize, end: usize, ft: ForceType)
    requires
        pairs_sorted(old(v)@),
        pairs_distinct(old(v)@),
    ensures
        final(v)@ == expand_insert(old(v)@, start as int, end as int, ft),
        pairs_sorted(final(v)@),
        pairs_distinct(final(v)@),
{
    let lo = if start <= end {
        start
    } else {
        end
    };
    let hi = if start <= end {
        end
    } else {
        start
    };
    let mut x = lo;
    loop
        invariant_except_break
            expand_insert_from(old(v)@, lo as int, hi as int, ft) == expand_insert_from(
                v@,
                x as int,
                hi as int,
                ft,
            ),
        invariant
            lo <= x <= hi,
            pairs_sorted(v@),
            pairs_distinct(v@),
        ensures
            v@ == expand_insert_from(old(v)@, lo as int, hi as int, ft),
            pairs_sorted(v@),
            pairs_distinct(v@),
        decreases hi - x,
    {
        let ghost before = v@;
        insert_force_pair(v, (x, ft));
        proof {
            assert(expand_insert_from(before, x as int, hi as int, ft) == expand_insert_from(
                insert_pair(before, (x, ft)),
                x as int + 1,
                hi as int,
                ft,
            ));
        }
        if x == hi {
            proof {
                assert(expand_insert_from(v@, x as int + 1, hi as int, ft) == v@);
            }
            break;
        }
        x = x + 1;
    }
}

/// Extracts a well-formed range token: its bounds, axis and type. Fails
/// when a bound does not fit or the token names the axis opposite to the
/// established one.
fn parse_range_force(
    part: &str,
    whole_arg: &str,
    location: (usize, usize),
    linecolumn: Option<LineColumn>,
) -> (r: Result<((usize, usize), LineColumn, ForceType), ArgError>)
    requires
        force_cat0(part@),
    ensures
        ({
            let t = part@;
            let n = t.len() as int;
            let j = digit_run(t, 0);
            let sv = dec_val(t.subrange(0, j));
            let ev = dec_val(t.subrange(j + 1, n - 2));
            let axis = axis_of(t[n - 2]);
            let gspan = (location.0 as int, location.1 as int);
            if sv > usize::MAX || ev > usize::MAX {
                r matches Err(e) && arg_error_is(
                    e,
                    range_err(RangeErrorKind::OutOfRange, t, whole_arg@, gspan),
                )
            } else if linecolumn matches Some(l) && l != axis {
                r matches Err(e) && arg_error_is(e, axis_conflict_err(t, whole_arg@, gspan))
            } else {
                r matches Ok(v) && v == ((sv as usize, ev as usize), axis, ft_of(t[n - 1]))
            }
        }),
{
    let n = part.unicode_len();
    let j = digit_run_end(part, 0);
    proof {
        crate::setting::select::lemma_digit_run(part@, j + 1);
    }
    let start_opt = parse_dec(part, 0, j);
    let end_opt = parse_dec(part, j + 1, n - 2);
    if start_opt.is_none() || end_opt.is_none() {
        return Err(err_range(RangeErrorKind::OutOfRange, part, whole_arg, location));
    }
    let start = start_opt.unwrap();
    let end = end_opt.unwrap();
    let lc = LineColumn::from_char(part.get_char(n - 2));
    let force_type = ForceType::from_char(part.get_char(n - 1));
    match linecolumn {
        Some(l) if !matches!((l, lc), (LineColumn::Line, LineColumn::Line) | (
            LineColumn::Column,
            LineColumn::Column,
        )) => Err(err_axis_conflict(part, whole_arg, location)),
        _ => Ok(((start, end), lc, force_type)),
    }
}

/// Extracts a well-formed single token: its index, axis and type. Fails
/// when the index does not fit or the token names the axis opposite to
/// the established one.
fn parse_single_force(
    part: &str,
    whole_arg: &str,
    location: (usize, usize),
    linecolumn: Option<LineColumn>,
) -> (r: Result<(usize, LineColumn, ForceType), ArgError>)
    requires
        force_cat1(part@),
    ensures
        ({
            let t = part@;
            let n = t.len() as int;
            let v = dec_val(t.subrange(0, n - 2));
            let axis = axis_of(t[n - 2]);
            let gspan = (location.0 as int, location.1 as int);
            if v > usize::MAX {
                r matches Err(e) && arg_error_is(
                    e,
                    range_err(RangeErrorKind::OutOfRange, t, whole_arg@, gspan),
                )
            } else if linecolumn matches Some(l) && l != axis {
                r matches Err(e) && arg_error_is(e, axis_conflict_err(t, whole_arg@, gspan))
            } else {
                r matches Ok(w) && w == (v as usize, axis, ft_of(t[n - 1]))
            }
        }),
{
    let n = part.unicode_len();
    proof {
        crate::setting::select::lemma_digit_run(part@, 0);
    }
    let v_opt = parse_dec(part, 0, n - 2);
    if v_opt.is_none() {
        return Err(err_range(RangeErrorKind::OutOfRange, part, whole_arg, location));
    }
    let v = v_opt.unwrap();
    let lc = LineColumn::from_char(part.get_char(n - 2));
    let force_type = ForceType::from_char(part.get_char(n - 1));
    match linecolumn {
        Some(l) if !matches!((l, lc), (LineColumn::Line, LineColumn::Line) | (
            LineColumn::Column,
            LineColumn::Column,
        )) => Err(err_axis_conflict(part, whole_arg, location)),
        _ => Ok((v, lc, force_type)),
    }
}

/// Decodes a force-parse expression: comma-separated tokens, each a
/// number or range followed by an axis letter and a type letter, every
/// token naming the same axis. Yields the ordered, conflict-free type
/// bindings and their axis, or the diagnostic of the first fault.
pub fn validate_force_parse(s: &str) -> (r: Result<(Vec<(usize, ForceType)>, LineColumn), ArgError>)
    ensures
        r matches Ok(p) ==> force_model(s@) == Ok::<(Seq<(usize, ForceType)>, LineColumn), ArgErrSpec>(
            (p.0@, p.1),
        ),
        r matches Ok(p) ==> pairs_sorted(p.0@) && pairs_distinct(p.0@),
        r matches Ok(p) ==> forall|i: int, j: int|
            0 <= i < j < p.0@.len() ==> (#[trigger] p.0@[i]).0 < (#[trigger] p.0@[j]).0,
        r matches Err(e) ==> force_model(s@) matches Err(m) && arg_error_is(e, m),
{
    proof {
        reveal_strlit(",");
        assert(","@ =~= seq![',']);
    }
    let parts = split_str(s, ",");
    let ghost pseq = parts.deep_view();
    let total = s.unicode_len();
    proof {
        lemma_split_len_sum(s@, ","@);
        assert(len_sum(pseq) + (pseq.len() - 1) * 1 == s@.len());
        crate::text::lemma_split_len(s@, ","@);
    }
    let mut result: Vec<(usize, ForceType)> = Vec::new();
    let mut linecolumn: Option<LineColumn> = None;
    let mut location: usize = 0;
    let mut i: usize = 0;
    let m = parts.len();
    let ghost goal = force_model(s@);
    proof {
        assert(result@ =~= Seq::<(usize, ForceType)>::empty());
    }
    while i < m
        invariant
            i <= m,
            m == pseq.len(),
            pseq == parts.deep_view(),
            pseq == split_of(s@, ","@),
            goal == force_model(s@),
            total as int == s@.len(),
            len_sum(pseq) + (pseq.len() - 1) == s@.len(),
            pairs_sorted(result@) && pairs_distinct(result@),
            i < m ==> location as int == off_trim(pseq, i as int),
            force_run(pseq, i as int, result@, linecolumn, off_trim(pseq, i as int), s@) == goal,
        decreases m - i,
    {
        let part: &str = trim_str(parts[i].as_str());
        let ghost t = trim_of(pseq[i as int]);
        let ghost a0 = result@;
        let ghost lc0 = linecolumn;
        let ghost off0 = location as int;
        proof {
            assert(part@ == t);
            lemma_off_trim_bound(pseq, i as int);
            lemma_off_trim_bound(pseq, i as int + 1);
            lemma_len_sum_nonneg(pseq);
            crate::text::lemma_len_sum_prefix(pseq, i as int + 1);
            assert(pseq.take(i as int + 1) =~= pseq.take(i as int).push(pseq[i as int]));
            crate::text::lemma_len_sum_push(pseq.take(i as int), pseq[i as int]);
            lemma_trim_len(pseq[i as int]);
            assert(off_trim(pseq, i as int) + t.len() <= len_sum(pseq) + i);
            assert(len_sum(pseq) + i <= s@.len());
        }
        let n = part.unicode_len();
        let plen = n;
        let span = (location, location + plen);
        let ghost gspan = (off0, off0 + t.len());
        let c = classify_force(part);
        if c == -1 {
            let e = err_wrong_format(
                "There is more than one error in this part.",
                part,
                s,
                Some(span),
            );
            return Err(e);
        } else if c == 0 {
            proof {
                let j0 = digit_run(t, 0);
                crate::setting::select::lemma_digit_run(t, 0);
                crate::setting::select::lemma_digit_run(t, j0 + 1);
                assert(digits_in(
                    t.subrange(0, j0),
                    0,
                    t.subrange(0, j0).len() as int,
                )) by {
                    assert(forall|x: int|
                        0 <= x < j0 ==> #[trigger] t.subrange(0, j0)[x] == t[x]);
                }
                assert(digits_in(
                    t.subrange(j0 + 1, t.len() as int - 2),
                    0,
                    t.subrange(j0 + 1, t.len() as int - 2).len() as int,
                )) by {
                    assert(forall|x: int|
                        0 <= x < t.len() - 2 - (j0 + 1) ==> #[trigger] t.subrange(
                            j0 + 1,
                            t.len() as int - 2,
                        )[x] == t[j0 + 1 + x]);
                }
                crate::text::lemma_dec_val_nonneg(t.subrange(0, j0));
                crate::text::lemma_dec_val_nonneg(t.subrange(j0 + 1, t.len() as int - 2));
            }
            let parsed = match parse_range_force(part, s, span, linecolumn) {
                Ok(p) => p,
                Err(e) => {
                    proof {
                        let j0 = digit_run(t, 0);
                        let svv = dec_val(t.subrange(0, j0));
                        let evv = dec_val(t.subrange(j0 + 1, t.len() as int - 2));
                        if svv > usize::MAX || evv > usize::MAX {
                            assert(goal == Err::<
                                (Seq<(usize, ForceType)>, LineColumn),
                                ArgErrSpec,
                            >(range_err(RangeErrorKind::OutOfRange, t, s@, gspan)));
                        } else {
                            assert(goal == Err::<
                                (Seq<(usize, ForceType)>, LineColumn),
                                ArgErrSpec,
                            >(axis_conflict_err(t, s@, gspan)));
                        }
                    }
                    return Err(e);
                },
            };
            let ((start, end), lc, ft) = parsed;
            let ghost j = digit_run(t, 0);
            let ghost sv = dec_val(t.subrange(0, j));
            let ghost ev = dec_val(t.subrange(j + 1, t.len() as int - 2));
            linecolumn = Some(lc);
            insert_force_range(&mut result, start, end, ft);
            proof {
                assert(result@ == expand_insert(a0, sv, ev, ft_of(t[t.len() as int - 1])));
                assert(force_run(pseq, i as int, a0, lc0, off0, s@) == force_run(
                    pseq,
                    i as int + 1,
                    expand_insert(a0, sv, ev, ft_of(t[t.len() as int - 1])),
                    Some(axis_of(t[t.len() as int - 2])),
                    off0 + t.len() + 1,
                    s@,
                ));
            }
        } else if c == 1 {
            proof {
                crate::setting::select::lemma_digit_run(t, 0);
                assert(digits_in(
                    t.subrange(0, t.len() as int - 2),
                    0,
                    t.subrange(0, t.len() as int - 2).len() as int,
                )) by {
                    assert(forall|x: int|
                        0 <= x < t.len() - 2 ==> #[trigger] t.subrange(
                            0,
                            t.len() as int - 2,
                        )[x] == t[x]);
                }
                crate::text::lemma_dec_val_nonneg(t.subrange(0, t.len() as int - 2));
            }
            let parsed = match parse_single_force(part, s, span, linecolumn) {
                Ok(p) => p,
                Err(e) => {
                    proof {
                        let vvv = dec_val(t.subrange(0, t.len() as int - 2));
                        if vvv > usize::MAX {
                            assert(goal == Err::<
                                (Seq<(usize, ForceType)>, LineColumn),
                                ArgErrSpec,
                            >(range_err(RangeErrorKind::OutOfRange, t, s@, gspan)));
                        } else {
                            assert(goal == Err::<
                                (Seq<(usize, ForceType)>, LineColumn),
                                ArgErrSpec,
                            >(axis_conflict_err(t, s@, gspan)));
                        }
                    }
                    return Err(e);
                },
            };
            let (v, lc, ft) = parsed;
            let ghost vv = dec_val(t.subrange(0, t.len() as int - 2));
            linecolumn = Some(lc);
            insert_force_pair(&mut result, (v, ft));
            proof {
                assert(result@ == insert_pair(a0, (vv as usize, ft_of(t[t.len() as int - 1]))));
                assert(force_run(pseq, i as int, a0, lc0, off0, s@) == force_run(
                    pseq,
                    i as int + 1,
                    insert_pair(a0, (vv as usize, ft_of(t[t.len() as int - 1]))),
                    Some(axis_of(t[t.len() as int - 2])),
                    off0 + t.len() + 1,
                    s@,
                ));
            }
        } else if c == 2 {
            let e = err_range(RangeErrorKind::RightSideError, part, s, span);
            return Err(e);
        } else if c == 3 {
            let e = err_range(RangeErrorKind::LeftSideError, part, s, span);
            return Err(e);
        } else if c == 4 {
            let e = err_range(RangeErrorKind::BothSidesError, part, s, span);
            return Err(e);
        } else if c == 5 {
            let e = err_range(RangeErrorKind::SingleNumberError, part, s, span);
            return Err(e);
        } else if c == 6 || c == 7 {
            let e = err_keyword("type", part, s, Some(span));
            return Err(e);
        } else {
            let e = err_keyword("line or column", part, s, Some(span));
            return Err(e);
        }
        if i + 1 < m {
            location = location + plen + 1;
        }
        i = i + 1;
    }
    match linecolumn {
        None => {
            let e = err_keyword("line or column", s, s, None);
            Err(e)
        },
        Some(axis) => {
            let n = result.len();
            let mut k: usize = 0;
            proof {
                lemma_first_conflict(result@);
            }
            while n > 0 && k < n - 1
                invariant
                    k <= n,
                    n == result@.len(),
                    pairs_sorted(result@) && pairs_distinct(result@),
                    forall|j: int| 0 <= j < k ==> (#[trigger] result@[j]).0 != result@[j + 1].0,
                    goal == force_model(s@),
                    m == pseq.len(),
                    force_run(
                        pseq,
                        pseq.len() as int,
                        result@,
                        Some(axis),
                        off_trim(pseq, pseq.len() as int),
                        s@,
                    ) == goal,
                decreases n - k,
            {
                if result[k].0 == result[k + 1].0 {
                    proof {
                        lemma_first_conflict_is(result@, k as int);
                    }
                    let name1 = result[k].1.to_string();
                    let p1 = pair_string(result[k].0, name1.as_str());
                    let name2 = result[k + 1].1.to_string();
                    let p2 = pair_string(result[k + 1].0, name2.as_str());
                    proof {
                        assert(p1@ == force_pair_text(result@[k as int]));
                        assert(p2@ == force_pair_text(result@[k as int + 1]));
                        assert(force_run(
                            pseq,
                            pseq.len() as int,
                            result@,
                            Some(axis),
                            off_trim(pseq, pseq.len() as int),
                            s@,
                        ) == force_finalize(result@, Some(axis), s@));
                        assert(force_finalize(result@, Some(axis), s@) == Err::<
                            (Seq<(usize, ForceType)>, LineColumn),
                            ArgErrSpec,
                        >(
                            dup_conflict_err(
                                s@,
                                force_pair_text(result@[k as int]),
                                force_pair_text(result@[k as int + 1]),
                            ),
                        ));
                    }
                    let e = err_dup_conflict(s, p1, p2);
                    return Err(e);
                }
                k = k + 1;
            }
            proof {
                lemma_first_conflict(result@);
                if first_conflict(result@) >= 0 {
                    assert(result@[first_conflict(result@)].0 == result@[first_conflict(result@)
                        + 1].0);
                }
                assert forall|a: int, b: int| 0 <= a < b < result@.len() implies (
                #[trigger] result@[a]).0 < (#[trigger] result@[b]).0 by {
                    crate::setting::select::lemma_pairs_adjacent_strict(result@, a, b);
                }
            }
            Ok((result, axis))
        },
    }
}

/* ------------------------ order invariance law ------------------------ */

/// What one well-formed force token binds; the axis is shared by the
/// whole expression.
pub open spec fn force_token_selects(t0: Seq<char>, q: (usize, ForceType)) -> bool {
    let t = trim_of(t0);
    let n = t.len() as int;
    let j = digit_run(t, 0);
    let a = dec_val(t.subrange(0, j));
    let b = dec_val(t.subrange(j + 1, n - 2));
    if force_cat(t) == 0 {
        q.1 == ft_of(t[n - 1]) && vstd::math::min(a, b) <= q.0 as int <= vstd::math::max(a, b)
    } else if force_cat(t) == 1 {
        q.1 == ft_of(t[n - 1]) && q.0 as int == dec_val(t.subrange(0, n - 2))
    } else {
        false
    }
}

/// A successful force run yields ordered bindings with strictly
/// increasing indices; its axis is the one named by every well-formed
/// token, of which there is at least one.
pub proof fn lemma_force_run_ok(
    parts: Seq<Seq<char>>,
    k: int,
    acc: Seq<(usize, ForceType)>,
    lc: Option<LineColumn>,
    off: int,
    whole: Seq<char>,
    p: (Seq<(usize, ForceType)>, LineColumn),
)
    requires
        0 <= k <= parts.len(),
        pairs_sorted(acc),
        pairs_distinct(acc),
        force_run(parts, k, acc, lc, off, whole) == Ok::<
            (Seq<(usize, ForceType)>, LineColumn),
            ArgErrSpec,
        >(p),
    ensures
        pairs_sorted(p.0),
        pairs_distinct(p.0),
        forall|i: int, j: int| 0 <= i < j < p.0.len() ==> (#[trigger] p.0[i]).0 < (
        #[trigger] p.0[j]).0,
        lc matches Some(l) ==> p.1 == l,
        forall|tk: int|
            k <= tk < parts.len() && (force_cat(trim_of(#[trigger] parts[tk])) == 0 || force_cat(
                trim_of(parts[tk]),
            ) == 1) ==> axis_of(trim_of(parts[tk])[trim_of(parts[tk]).len() - 2]) == p.1,
        lc is None ==> exists|tk: int|
            k <= tk < parts.len() && (force_cat(trim_of(#[trigger] parts[tk])) == 0 || force_cat(
                trim_of(parts[tk]),
            ) == 1),
    decreases parts.len() - k,
{
    if k == parts.len() {
        lemma_first_conflict(acc);
        assert forall|i: int, j: int| 0 <= i < j < p.0.len() implies (#[trigger] p.0[i]).0 < (
        #[trigger] p.0[j]).0 by {
            crate::setting::select::lemma_pairs_adjacent_strict(acc, i, j);
        }
    } else {
        let t = trim_of(parts[k]);
        let n = t.len() as int;
        let j = digit_run(t, 0);
        let c = force_cat(t);
        assert(c == 0 || c == 1);
        let axis = axis_of(t[n - 2]);
        let ft = ft_of(t[n - 1]);
        let sv = if c == 0 {
            dec_val(t.subrange(0, j))
        } else {
            dec_val(t.subrange(0, n - 2))
        };
        let ev = if c == 0 {
            dec_val(t.subrange(j + 1, n - 2))
        } else {
            sv
        };
        let acc2: Seq<(usize, ForceType)> = if c == 0 {
            expand_insert(acc, sv, ev, ft)
        } else {
            insert_pair(acc, (sv as usize, ft))
        };
        if c == 0 {
            lemma_expand_insert(acc, sv, ev, ft);
        } else {
            assert(sv <= usize::MAX);
            lemma_insert_pair(acc, (sv as usize, ft));
        }
        assert(force_run(parts, k + 1, acc2, Some(axis), off + t.len() + 1, whole) == Ok::<
            (Seq<(usize, ForceType)>, LineColumn),
            ArgErrSpec,
        >(p));
        lemma_force_run_ok(parts, k + 1, acc2, Some(axis), off + t.len() + 1, whole, p);
        assert(exists|tk: int|
            k <= tk < parts.len() && (force_cat(trim_of(#[trigger] parts[tk])) == 0 || force_cat(
                trim_of(parts[tk]),
            ) == 1)) by {
            assert(k <= k < parts.len() && (force_cat(trim_of(parts[k])) == 0 || force_cat(
                trim_of(parts[k]),
            ) == 1));
        }
    }
}

/// The members of a successful force run: the accumulated bindings plus
/// what the remaining tokens bind.
pub proof fn lemma_force_run_members(
    parts: Seq<Seq<char>>,
    k: int,
    acc: Seq<(usize, ForceType)>,
    lc: Option<LineColumn>,
    off: int,
    whole: Seq<char>,
    p: (Seq<(usize, ForceType)>, LineColumn),
)
    requires
        0 <= k <= parts.len(),
        pairs_sorted(acc),
        pairs_distinct(acc),
        force_run(parts, k, acc, lc, off, whole) == Ok::<
            (Seq<(usize, ForceType)>, LineColumn),
            ArgErrSpec,
        >(p),
    ensures
        forall|q: (usize, ForceType)| #[trigger]
            p.0.contains(q) <==> (acc.contains(q) || exists|tk: int|
                k <= tk < parts.len() && force_token_selects(#[trigger] parts[tk], q)),
    decreases parts.len() - k,
{
    if k == parts.len() {
        assert(p.0 == acc);
    } else {
        let t = trim_of(parts[k]);
        let n = t.len() as int;
        let j = digit_run(t, 0);
        let c = force_cat(t);
        assert(c == 0 || c == 1);
        let ft = ft_of(t[n - 1]);
        let axis = axis_of(t[n - 2]);
        crate::setting::select::lemma_digit_run(t, 0);
        crate::setting::select::lemma_digit_run(t, j + 1);
        let sv = if c == 0 {
            dec_val(t.subrange(0, j))
        } else {
            dec_val(t.subrange(0, n - 2))
        };
        let ev = if c == 0 {
            dec_val(t.subrange(j + 1, n - 2))
        } else {
            sv
        };
        if c == 0 {
            assert(digits_in(t.subrange(0, j), 0, t.subrange(0, j).len() as int)) by {
                assert(forall|y: int| 0 <= y < j ==> #[trigger] t.subrange(0, j)[y] == t[y]);
            }
            assert(digits_in(
                t.subrange(j + 1, n - 2),
                0,
                t.subrange(j + 1, n - 2).len() as int,
            )) by {
                assert(forall|y: int|
                    0 <= y < n - 2 - (j + 1) ==> #[trigger] t.subrange(j + 1, n - 2)[y] == t[j + 1
                        + y]);
            }
            crate::text::lemma_dec_val_nonneg(t.subrange(0, j));
            crate::text::lemma_dec_val_nonneg(t.subrange(j + 1, n - 2));
        } else {
            assert(digits_in(t.subrange(0, n - 2), 0, t.subrange(0, n - 2).len() as int)) by {
                assert(forall|y: int| 0 <= y < n - 2 ==> #[trigger] t.subrange(0, n - 2)[y] == t[y]);
            }
            crate::text::lemma_dec_val_nonneg(t.subrange(0, n - 2));
        }
        assert(sv <= usize::MAX && ev <= usize::MAX);
        let acc2: Seq<(usize, ForceType)> = if c == 0 {
            expand_insert(acc, sv, ev, ft)
        } else {
            insert_pair(acc, (sv as usize, ft))
        };
        if c == 0 {
            lemma_expand_insert(acc, sv, ev, ft);
            crate::setting::select::lemma_expand_insert_members(acc, sv, ev, ft);
        } else {
            lemma_insert_pair(acc, (sv as usize, ft));
        }
        assert(force_run(parts, k + 1, acc2, Some(axis), off + t.len() + 1, whole) == Ok::<
            (Seq<(usize, ForceType)>, LineColumn),
            ArgErrSpec,
        >(p));
        lemma_force_run_members(parts, k + 1, acc2, Some(axis), off + t.len() + 1, whole, p);
        assert forall|q: (usize, ForceType)| #[trigger]
            p.0.contains(q) <==> (acc.contains(q) || exists|tk: int|
                k <= tk < parts.len() && force_token_selects(#[trigger] parts[tk], q)) by {
            assert(p.0.contains(q) <==> (acc2.contains(q) || exists|tk: int|
                k + 1 <= tk < parts.len() && force_token_selects(#[trigger] parts[tk], q)));
            assert(acc2.contains(q) <==> (acc.contains(q) || force_token_selects(parts[k], q)));
            if force_token_selects(parts[k], q) {
                assert(k <= k < parts.len() && force_token_selects(parts[k], q));
            }
            if exists|tk: int|
                k + 1 <= tk < parts.len() && force_token_selects(#[trigger] parts[tk], q) {
                let tk = choose|tk: int|
                    k + 1 <= tk < parts.len() && force_token_selects(#[trigger] parts[tk], q);
                assert(k <= tk < parts.len() && force_token_selects(parts[tk], q));
            }
            if exists|tk: int|
                k <= tk < parts.len() && force_token_selects(#[trigger] parts[tk], q) {
                let tk = choose|tk: int|
                    k <= tk < parts.len() && force_token_selects(#[trigger] parts[tk], q);
                if tk > k {
                    assert(k + 1 <= tk < parts.len() && force_token_selects(parts[tk], q));
                }
            }
        }
    }
}

/// Order invariance: two force-parse expressions whose comma-separated
/// tokens are the same as sets, and which both succeed, yield the same
/// bindings and the same axis.
pub proof fn lemma_force_order_invariance(s1: Seq<char>, s2: Seq<char>)
    requires
        force_model(s1) is Ok,
        force_model(s2) is Ok,
        forall|t: Seq<char>| #[trigger]
            split_of(s1, ","@).contains(t) <==> #[trigger] split_of(s2, ","@).contains(t),
    ensures
        force_model(s1) == force_model(s2),
{
    let parts1 = split_of(s1, ","@);
    let parts2 = split_of(s2, ","@);
    let p1 = match force_model(s1) {
        Ok(p) => p,
        Err(_) => arbitrary(),
    };
    let p2 = match force_model(s2) {
        Ok(p) => p,
        Err(_) => arbitrary(),
    };
    let empty = Seq::<(usize, ForceType)>::empty();
    assert(force_model(s1) == Ok::<(Seq<(usize, ForceType)>, LineColumn), ArgErrSpec>(p1));
    assert(force_model(s2) == Ok::<(Seq<(usize, ForceType)>, LineColumn), ArgErrSpec>(p2));
    assert(forall|q: (usize, ForceType)| !(#[trigger] empty.contains(q)));
    lemma_force_run_members(parts1, 0, empty, None, 0, s1, p1);
    lemma_force_run_members(parts2, 0, empty, None, 0, s2, p2);
    lemma_force_run_ok(parts1, 0, empty, None, 0, s1, p1);
    lemma_force_run_ok(parts2, 0, empty, None, 0, s2, p2);
    assert forall|q: (usize, ForceType)| #[trigger]
        p1.0.contains(q) <==> #[trigger] p2.0.contains(q) by {
        if exists|tk: int| 0 <= tk < parts1.len() && force_token_selects(#[trigger] parts1[tk], q) {
            let tk = choose|tk: int|
                0 <= tk < parts1.len() && force_token_selects(#[trigger] parts1[tk], q);
            assert(parts1.contains(parts1[tk]));
            assert(parts2.contains(parts1[tk]));
            let tj = choose|tj: int| 0 <= tj < parts2.len() && parts2[tj] == parts1[tk];
            assert(0 <= tj < parts2.len() && force_token_selects(parts2[tj], q));
        }
        if exists|tk: int| 0 <= tk < parts2.len() && force_token_selects(#[trigger] parts2[tk], q) {
            let tk = choose|tk: int|
                0 <= tk < parts2.len() && force_token_selects(#[trigger] parts2[tk], q);
            assert(parts2.contains(parts2[tk]));
            assert(parts1.contains(parts2[tk]));
            let tj = choose|tj: int| 0 <= tj < parts1.len() && parts1[tj] == parts2[tk];
            assert(0 <= tj < parts1.len() && force_token_selects(parts1[tj], q));
        }
    }
    crate::setting::select::lemma_pairs_strict_eq(p1.0, p2.0);
    let tk1 = choose|tk: int|
        0 <= tk < parts1.len() && (force_cat(trim_of(#[trigger] parts1[tk])) == 0 || force_cat(
            trim_of(parts1[tk]),
        ) == 1);
    assert(axis_of(trim_of(parts1[tk1])[trim_of(parts1[tk1]).len() - 2]) == p1.1);
    assert(parts1.contains(parts1[tk1]));
    assert(parts2.contains(parts1[tk1]));
    let tj = choose|tj: int| 0 <= tj < parts2.len() && parts2[tj] == parts1[tk1];
    assert(axis_of(trim_of(parts2[tj])[trim_of(parts2[tj]).len() - 2]) == p2.1);
    assert(p1.1 == p2.1);
}

/* ----------------------- case insensitivity law ----------------------- */

/// Characters that fold alike agree on being a type letter, and on the
/// type a letter names.
proof fn lemma_fold_type(a: char, b: char)
    requires
        crate::setting::select::fold_letter(a) == crate::setting::select::fold_letter(b),
    ensures
        is_type_char(a) == is_type_char(b),
        is_type_char(a) ==> ft_of(a) == ft_of(b),
{
}

/// Case-equivalent tokens fall in the same force category.
pub proof fn lemma_force_cat_case(t1: Seq<char>, t2: Seq<char>)
    requires
        crate::setting::select::case_equiv(t1, t2),
    ensures
        force_cat(t1) == force_cat(t2),
{
    let n = t1.len() as int;
    if n >= 1 {
        crate::setting::select::lemma_case_pointwise(t1, t2);
        lemma_fold_type(t1[n - 1], t2[n - 1]);
        crate::setting::select::lemma_digit_run_case(t1, t2, 0);
        let j = digit_run(t1, 0);
        crate::setting::select::lemma_digit_run(t1, 0);
        if j + 1 <= n {
            crate::setting::select::lemma_digit_run_case(t1, t2, j + 1);
            crate::setting::select::lemma_digit_run(t1, j + 1);
            let k = digit_run(t1, j + 1);
            if k + 1 <= n {
                crate::setting::select::lemma_clean_in_case(t1, t2, k + 1, n);
            }
        }
        crate::setting::select::lemma_clean_in_case(t1, t2, j + 1, n);
        if n >= 2 {
            crate::setting::select::lemma_last_index_case(t1, t2, n - 2);
            crate::setting::select::lemma_last_index_of(t1, '-', n - 2);
            let d = last_index_of(t1, '-', n - 2);
            crate::setting::select::lemma_digits_in_case(t1, t2, d + 1, n - 2);
            crate::setting::select::lemma_clean_in_case(t1, t2, 0, d);
            crate::setting::select::lemma_clean_in_case(t1, t2, j + 1, n - 2);
            crate::setting::select::lemma_clean_in_case(t1, t2, 0, n - 2);
            crate::setting::select::lemma_clean_in_case(t1, t2, j + 2, n - 1);
            crate::setting::select::lemma_clean_in_case(t1, t2, 1, n - 1);
        }
        assert(force_cat0(t1) == force_cat0(t2));
        assert(force_cat1(t1) == force_cat1(t2));
        assert(force_cat2(t1) == force_cat2(t2));
        assert(force_cat3(t1) == force_cat3(t2));
        assert(force_cat4(t1) == force_cat4(t2));
        assert(force_cat5(t1) == force_cat5(t2));
        assert(force_cat6(t1) == force_cat6(t2));
        assert(force_cat7(t1) == force_cat7(t2));
        assert(force_cat8(t1) == force_cat8(t2));
        assert(force_cat9(t1) == force_cat9(t2));
    }
}

/// A successful force run is unmoved by the case of its letters:
/// case-equivalent tokens drive it to the same bindings and axis.
pub proof fn lemma_force_run_case(
    parts1: Seq<Seq<char>>,
    parts2: Seq<Seq<char>>,
    k: int,
    acc: Seq<(usize, ForceType)>,
    lc: Option<LineColumn>,
    off1: int,
    off2: int,
    w1: Seq<char>,
    w2: Seq<char>,
    p: (Seq<(usize, ForceType)>, LineColumn),
)
    requires
        0 <= k <= parts1.len(),
        parts1.len() == parts2.len(),
        forall|m: int|
            0 <= m < parts1.len() ==> crate::setting::select::case_equiv(
                #[trigger] parts1[m],
                parts2[m],
            ),
        force_run(parts1, k, acc, lc, off1, w1) == Ok::<
            (Seq<(usize, ForceType)>, LineColumn),
            ArgErrSpec,
        >(p),
    ensures
        force_run(parts2, k, acc, lc, off2, w2) == Ok::<
            (Seq<(usize, ForceType)>, LineColumn),
            ArgErrSpec,
        >(p),
    decreases parts1.len() - k,
{
    if k == parts1.len() {
    } else {
        crate::setting::select::lemma_trim_case(parts1[k], parts2[k]);
        let t1 = trim_of(parts1[k]);
        let t2 = trim_of(parts2[k]);
        let n = t1.len() as int;
        lemma_force_cat_case(t1, t2);
        let c = force_cat(t1);
        assert(c == 0 || c == 1);
        crate::setting::select::lemma_case_pointwise(t1, t2);
        lemma_fold_type(t1[n - 1], t2[n - 1]);
        crate::setting::select::lemma_digit_run_case(t1, t2, 0);
        let j = digit_run(t1, 0);
        crate::setting::select::lemma_digit_run(t1, 0);
        crate::setting::select::lemma_digit_run(t1, j + 1);
        let axis = axis_of(t1[n - 2]);
        let ft = ft_of(t1[n - 1]);
        if c == 0 {
            assert(t1.subrange(0, j) =~= t2.subrange(0, j));
            assert(t1.subrange(j + 1, n - 2) =~= t2.subrange(j + 1, n - 2));
            let sv = dec_val(t1.subrange(0, j));
            let ev = dec_val(t1.subrange(j + 1, n - 2));
            if sv > usize::MAX || ev > usize::MAX {
            } else if lc matches Some(l) && l != axis {
            } else {
                lemma_force_run_case(
                    parts1,
                    parts2,
                    k + 1,
                    expand_insert(acc, sv, ev, ft),
                    Some(axis),
                    off1 + t1.len() + 1,
                    off2 + t2.len() + 1,
                    w1,
                    w2,
                    p,
                );
            }
        } else {
            assert(t1.subrange(0, n - 2) =~= t2.subrange(0, n - 2));
            let v = dec_val(t1.subrange(0, n - 2));
            if v > usize::MAX {
            } else if lc matches Some(l) && l != axis {
            } else {
                lemma_force_run_case(
                    parts1,
                    parts2,
                    k + 1,
                    insert_pair(acc, (v as usize, ft)),
                    Some(axis),
                    off1 + t1.len() + 1,
                    off2 + t2.len() + 1,
                    w1,
                    w2,
                    p,
                );
            }
        }
    }
}

/// Case insensitivity: a force-parse expression that succeeds yields
/// the same bindings and axis when the case of its letters changes.
pub proof fn lemma_force_case_invariance(s1: Seq<char>, s2: Seq<char>)
    requires
        crate::setting::select::case_equiv(s1, s2),
        force_model(s1) is Ok,
    ensures
        force_model(s2) == force_model(s1),
{
    let p = match force_model(s1) {
        Ok(p) => p,
        Err(_) => arbitrary(),
    };
    assert(force_model(s1) == Ok::<(Seq<(usize, ForceType)>, LineColumn), ArgErrSpec>(p));
    reveal_strlit(",");
    assert(","@ =~= seq![',']);
    crate::setting::select::lemma_split_case(s1, s2);
    lemma_force_run_case(
        split_of(s1, ","@),
        split_of(s2, ","@),
        0,
        Seq::empty(),
        None,
        0,
        0,
        s1,
        s2,
        p,
    );
}

} // verus!
