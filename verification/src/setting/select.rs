//! Shared machinery of the selector expression engine: token scanning,
//! the shape of the diagnostics the validators produce, and the ordered,
//! duplicate-free accumulation of (index, attribute) pairs.

use vstd::prelude::*;
use vstd::string::{StrSliceExecFns, StringExecFns};
use crate::error::{
    ErrorLevel, ErrorType, message_body, opt_view,
};
use crate::error::arg_error::{ArgError, ArgErrorKind, kind_name, kind_description, kind_hint};
use crate::error::conflicts::{Conflicts, quoted_list};
use crate::error::keyword_missing::{KeywordMissing, keyword_missing_description};
use crate::error::range_error::{RangeError, RangeErrorKind, range_kind_name, range_kind_reason, range_reason_text};
use crate::text::{is_digit, digits_in, clean_in, dec_of_nat, dec_string};

verus! {

/* --------------------------- token scanning -------------------------- */

/// The end of the run of decimal digits of `s` that starts at `from`.
pub open spec fn digit_run(s: Seq<char>, from: int) -> int
    decreases s.len() - from,
{
    if 0 <= from < s.len() && is_digit(s[from]) {
        digit_run(s, from + 1)
    } else {
        from
    }
}

/// Bounds of a digit run: it is a maximal run of digits.
pub proof fn lemma_digit_run(s: Seq<char>, from: int)
    requires
        0 <= from <= s.len(),
    ensures
        from <= digit_run(s, from) <= s.len(),
        digits_in(s, from, digit_run(s, from)),
        digit_run(s, from) < s.len() ==> !is_digit(s[digit_run(s, from)]),
    decreases s.len() - from,
{
    if from < s.len() && is_digit(s[from]) {
        lemma_digit_run(s, from + 1);
    }
}

/// A digit run is determined by its bounds.
pub proof fn lemma_digit_run_is(s: Seq<char>, from: int, r: int)
    requires
        0 <= from <= r <= s.len(),
        digits_in(s, from, r),
        r < s.len() ==> !is_digit(s[r]),
    ensures
        digit_run(s, from) == r,
    decreases s.len() - from,
{
    if from < s.len() && is_digit(s[from]) {
        lemma_digit_run_is(s, from + 1, r);
    }
}

/// Scans the maximal digit run of `s` starting at `from`.
pub fn digit_run_end(s: &str, from: usize) -> (r: usize)
    requires
        from <= s@.len(),
    ensures
        r == digit_run(s@, from as int),
        from <= r <= s@.len(),
        digits_in(s@, from as int, r as int),
        r < s@.len() ==> !is_digit(s@[r as int]),
{
    let n = s.unicode_len();
    let mut i: usize = from;
    loop
        invariant
            from <= i <= n,
            n == s@.len(),
            digits_in(s@, from as int, i as int),
        ensures
            from <= i <= n,
            digits_in(s@, from as int, i as int),
            i < n ==> !is_digit(s@[i as int]),
        decreases n - i,
    {
        if i >= n {
            break;
        }
        let c = s.get_char(i);
        if !(48 <= (c as u32) && (c as u32) <= 57) {
            break;
        }
        i = i + 1;
    }
    proof {
        lemma_digit_run_is(s@, from as int, i as int);
    }
    i
}

/// The last position of `c` in `s` before `to`, or `-1` if there is none.
pub open spec fn last_index_of(s: Seq<char>, c: char, to: int) -> int
    decreases to,
{
    if to <= 0 {
        -1
    } else if s[to - 1] == c {
        to - 1
    } else {
        last_index_of(s, c, to - 1)
    }
}

/// Bounds of the last occurrence of a character.
pub proof fn lemma_last_index_of(s: Seq<char>, c: char, to: int)
    requires
        0 <= to <= s.len(),
    ensures
        -1 <= last_index_of(s, c, to) < to,
        last_index_of(s, c, to) >= 0 ==> s[last_index_of(s, c, to)] == c,
        forall|j: int| last_index_of(s, c, to) < j < to ==> s[j] != c,
    decreases to,
{
    if to > 0 && s[to - 1] != c {
        lemma_last_index_of(s, c, to - 1);
    }
}

/// Looks for the last occurrence of `c` in `s` before `to`.
pub fn last_char_before(s: &str, c: char, to: usize) -> (r: Option<usize>)
    requires
        to <= s@.len(),
    ensures
        r matches Some(i) ==> i == last_index_of(s@, c, to as int) && i < to,
        r is None ==> last_index_of(s@, c, to as int) == -1,
{
    let mut i: usize = to;
    while i > 0
        invariant
            0 <= i <= to <= s@.len(),
            last_index_of(s@, c, to as int) == last_index_of(s@, c, i as int),
        decreases i,
    {
        if s.get_char(i - 1) == c {
            return Some(i - 1);
        }
        i = i - 1;
    }
    None
}

/// Decides whether `s` holds only digits in `[from, to)`.
pub fn digits_between(s: &str, from: usize, to: usize) -> (r: bool)
    requires
        from <= to <= s@.len(),
    ensures
        r == digits_in(s@, from as int, to as int),
{
    let mut i: usize = from;
    while i < to
        invariant
            from <= i <= to <= s@.len(),
            digits_in(s@, from as int, i as int),
        decreases to - i,
    {
        let c = s.get_char(i);
        if !(48 <= (c as u32) && (c as u32) <= 57) {
            return false;
        }
        i = i + 1;
    }
    true
}

/// Decides whether `s` is free of newlines in `[from, to)`.
pub fn clean_between(s: &str, from: usize, to: usize) -> (r: bool)
    requires
        from <= to <= s@.len(),
    ensures
        r == clean_in(s@, from as int, to as int),
{
    let mut i: usize = from;
    while i < to
        invariant
            from <= i <= to <= s@.len(),
            clean_in(s@, from as int, i as int),
        decreases to - i,
    {
        if s.get_char(i) == '\n' {
            return false;
        }
        i = i + 1;
    }
    true
}

/* ------------------------- diagnostic shapes ------------------------- */

/// The shape of an `ArgError` as the validators state it: one field per
/// field of the error.
pub struct ArgErrSpec {
    pub name: Seq<char>,
    pub description: Seq<char>,
    pub level: ErrorLevel,
    pub reason: Option<Seq<char>>,
    pub error_arg: Option<Seq<char>>,
    pub whole_arg: Option<Seq<char>>,
    pub location: Option<(int, int)>,
    pub hint: Option<Seq<char>>,
}

/// View of an optional span as mathematical integers.
pub open spec fn loc_view(o: Option<(usize, usize)>) -> Option<(int, int)> {
    match o {
        Some((a, b)) => Some((a as int, b as int)),
        None => None,
    }
}

/// An `ArgError` has exactly the given shape.
pub open spec fn arg_error_is(e: ArgError, m: ArgErrSpec) -> bool {
    &&& e.name@ == m.name
    &&& e.description@ == m.description
    &&& e.level == m.level
    &&& opt_view(&e.reason) == m.reason
    &&& opt_view(&e.error_arg) == m.error_arg
    &&& opt_view(&e.whole_arg) == m.whole_arg
    &&& loc_view(e.error_location) == m.location
    &&& opt_view(&e.hint) == m.hint
    &&& e.inv()
}

/// A wrong-format error for token `t` of expression `whole`, with the
/// given raw reason text.
pub open spec fn wrong_format_err(
    reason: Seq<char>,
    t: Seq<char>,
    whole: Seq<char>,
    span: Option<(int, int)>,
) -> ArgErrSpec {
    ArgErrSpec {
        name: kind_name(ArgErrorKind::WrongFormat),
        description: kind_description(ArgErrorKind::WrongFormat),
        level: ErrorLevel::Error,
        reason: Some(reason),
        error_arg: Some(t),
        whole_arg: Some(whole),
        location: span,
        hint: None,
    }
}

/// The rendered message of a range diagnostic about token `t`.
pub open spec fn range_message(kind: RangeErrorKind, t: Seq<char>) -> Seq<char> {
    message_body(
        ErrorLevel::Error,
        range_kind_name(kind),
        None,
        Some("Please check the ragne again."@),
        Some(range_reason_text(t, range_kind_reason(kind))),
    )
}

/// A wrong-format error wrapping a range diagnostic.
pub open spec fn range_err(
    kind: RangeErrorKind,
    t: Seq<char>,
    whole: Seq<char>,
    span: (int, int),
) -> ArgErrSpec {
    wrong_format_err(range_message(kind, t), t, whole, Some(span))
}

/// The rendered message of a missing-keyword diagnostic.
pub open spec fn keyword_message(kw: Seq<char>, whole: Seq<char>) -> Seq<char> {
    message_body(
        ErrorLevel::Error,
        keyword_missing_description(kw),
        None,
        Some("Please check the keyword and try again."@),
        Some("In "@ + whole + " where "@ + kw + " is expected."@),
    )
}

/// A wrong-format error wrapping a missing-keyword diagnostic: the
/// validators surface a missing keyword as a wrong-format argument
/// error whose reason embeds the keyword diagnostic's rendered message,
/// rather than as a diagnostic of its own.
pub open spec fn keyword_err(
    kw: Seq<char>,
    t: Seq<char>,
    whole: Seq<char>,
    span: Option<(int, int)>,
) -> ArgErrSpec {
    wrong_format_err(keyword_message(kw, whole), t, whole, span)
}

/// The rendered message of a conflict between the two axis letters.
pub open spec fn axis_conflict_message(t: Seq<char>) -> Seq<char> {
    message_body(
        ErrorLevel::Error,
        "This argument causes conflict(s)."@,
        None,
        Some("Please check the conflict(s) and try again."@),
        Some("In "@ + t + ", "@ + quoted_list(seq!["l"@, "c"@]) + " conflict with each other."@),
    )
}

/// A wrong-format error for a token that names the axis opposite to the
/// one the expression already established.
pub open spec fn axis_conflict_err(t: Seq<char>, whole: Seq<char>, span: (int, int)) -> ArgErrSpec {
    wrong_format_err(axis_conflict_message(t), t, whole, Some(span))
}

/// The rendered message of a conflict between two bindings of one index.
pub open spec fn dup_conflict_message(whole: Seq<char>, p1: Seq<char>, p2: Seq<char>) -> Seq<char> {
    message_body(
        ErrorLevel::Error,
        "This argument causes conflict(s)."@,
        None,
        Some("Please check the conflict(s) and try again."@),
        Some("In "@ + whole + ", "@ + quoted_list(seq![p1, p2]) + " conflict with each other."@),
    )
}

/// A conflicts error naming two bindings of one index.
pub open spec fn dup_conflict_err(whole: Seq<char>, p1: Seq<char>, p2: Seq<char>) -> ArgErrSpec {
    ArgErrSpec {
        name: kind_name(ArgErrorKind::Conflicts),
        description: kind_description(ArgErrorKind::Conflicts),
        level: ErrorLevel::Error,
        reason: Some(dup_conflict_message(whole, p1, p2)),
        error_arg: Some(whole),
        whole_arg: Some(whole),
        location: None,
        hint: Some(kind_hint(ArgErrorKind::Conflicts)),
    }
}

/* ------------------------- diagnostic builders ----------------------- */

/// Builds a wrong-format error with the given raw reason.
pub fn err_wrong_format(reason: &str, t: &str, whole: &str, span: Option<(usize, usize)>) -> (e:
    ArgError)
    ensures
        arg_error_is(e, wrong_format_err(reason@, t@, whole@, loc_view(span))),
{
    ArgError::new(
        ArgErrorKind::WrongFormat,
        Some(String::from_str(reason)),
        Some(String::from_str(t)),
        Some(String::from_str(whole)),
        span,
        None,
    )
}

/// Builds a wrong-format error wrapping a range diagnostic about `t`.
pub fn err_range(kind: RangeErrorKind, t: &str, whole: &str, span: (usize, usize)) -> (e: ArgError)
    ensures
        arg_error_is(e, range_err(kind, t@, whole@, (span.0 as int, span.1 as int))),
{
    let re = RangeError::new(
        kind,
        Some(String::from_str(t)),
        Some(String::from_str(whole)),
        Some(span),
    );
    let msg = re.message(ErrorLevel::Warning);
    ArgError::new(
        ArgErrorKind::WrongFormat,
        Some(msg),
        Some(String::from_str(t)),
        Some(String::from_str(whole)),
        Some(span),
        None,
    )
}

/// Builds a wrong-format error wrapping a missing-keyword diagnostic.
pub fn err_keyword(kw: &str, t: &str, whole: &str, span: Option<(usize, usize)>) -> (e: ArgError)
    ensures
        arg_error_is(e, keyword_err(kw@, t@, whole@, loc_view(span))),
{
    let km = KeywordMissing::new(
        Some(String::from_str(t)),
        Some(String::from_str(whole)),
        span,
        String::from_str(kw),
    );
    let msg = km.message(ErrorLevel::Warning);
    ArgError::new(
        ArgErrorKind::WrongFormat,
        Some(msg),
        Some(String::from_str(t)),
        Some(String::from_str(whole)),
        span,
        None,
    )
}

/// Builds a wrong-format error for a token naming the opposite axis.
pub fn err_axis_conflict(t: &str, whole: &str, span: (usize, usize)) -> (e: ArgError)
    ensures
        arg_error_is(e, axis_conflict_err(t@, whole@, (span.0 as int, span.1 as int))),
{
    let mut letters: Vec<String> = Vec::new();
    letters.push(String::from_str("l"));
    letters.push(String::from_str("c"));
    proof {
        assert(letters.deep_view() =~= seq!["l"@, "c"@]);
    }
    let conflict = Conflicts::new(
        ErrorLevel::Error,
        Some(String::from_str(t)),
        Some(String::from_str(whole)),
        Some(span),
        Some(letters),
    );
    let msg = conflict.message(ErrorLevel::Warning);
    ArgError::new(
        ArgErrorKind::WrongFormat,
        Some(msg),
        Some(String::from_str(t)),
        Some(String::from_str(whole)),
        Some(span),
        None,
    )
}

/// Builds a conflicts error naming the two given bindings.
pub fn err_dup_conflict(whole: &str, p1: String, p2: String) -> (e: ArgError)
    ensures
        arg_error_is(e, dup_conflict_err(whole@, p1@, p2@)),
{
    let mut pairs: Vec<String> = Vec::new();
    let ghost p1v = p1@;
    let ghost p2v = p2@;
    pairs.push(p1);
    pairs.push(p2);
    proof {
        assert(pairs.deep_view() =~= seq![p1v, p2v]);
    }
    let conflict = Conflicts::new(
        ErrorLevel::Error,
        Some(String::from_str(whole)),
        Some(String::from_str(whole)),
        None,
        Some(pairs),
    );
    let msg = conflict.message(ErrorLevel::Warning);
    ArgError::new(
        ArgErrorKind::Conflicts,
        Some(msg),
        Some(String::from_str(whole)),
        Some(String::from_str(whole)),
        None,
        Some(String::from_str("Please check the reason.")),
    )
}

/// Renders an (index, attribute) binding as `(index, Name)`.
pub fn pair_string(i: usize, name: &str) -> (r: String)
    ensures
        r@ == "("@ + dec_of_nat(i as nat) + ", "@ + name@ + ")"@,
{
    let mut s = String::from_str("(");
    let num = dec_string(i);
    s.append(num.as_str());
    s.append(", ");
    s.append(name);
    s.append(")");
    s
}

/* --------------------- ordered, duplicate-free pairs ------------------ */

/// Insertion position for index `i`: after every entry whose index is at
/// most `i`.
pub open spec fn insert_pos<T>(r: Seq<(usize, T)>, i: usize) -> int
    decreases r.len(),
{
    if r.len() == 0 {
        0
    } else if r[0].0 > i {
        0
    } else {
        1 + insert_pos(r.drop_first(), i)
    }
}

/// Adds a binding to an accumulated sequence: already-present bindings
/// are dropped, new ones enter after all entries with an index at most
/// theirs.
pub open spec fn insert_pair<T>(r: Seq<(usize, T)>, p: (usize, T)) -> Seq<(usize, T)> {
    if r.contains(p) {
        r
    } else {
        let pos = insert_pos(r, p.0);
        r.take(pos) + seq![p] + r.skip(pos)
    }
}

/// Adds every index of the ascending range `[lo, hi]` with the given
/// attribute.
pub open spec fn expand_insert_from<T>(r: Seq<(usize, T)>, lo: int, hi: int, a: T) -> Seq<
    (usize, T),
>
    decreases hi - lo + 1,
{
    if lo > hi || lo < 0 || lo > usize::MAX {
        r
    } else {
        expand_insert_from(insert_pair(r, (lo as usize, a)), lo + 1, hi, a)
    }
}

/// Adds every index between `start` and `end`, taken as an unordered
/// pair: an inverted range binds the same closed interval.
pub open spec fn expand_insert<T>(r: Seq<(usize, T)>, start: int, end: int, a: T) -> Seq<
    (usize, T),
> {
    expand_insert_from(r, vstd::math::min(start, end), vstd::math::max(start, end), a)
}

/// Entries are ordered by index, ascending.
pub open spec fn pairs_sorted<T>(r: Seq<(usize, T)>) -> bool {
    forall|i: int, j: int| 0 <= i < j < r.len() ==> (#[trigger] r[i]).0 <= (#[trigger] r[j]).0
}

/// No binding occurs twice.
pub open spec fn pairs_distinct<T>(r: Seq<(usize, T)>) -> bool {
    forall|i: int, j: int| 0 <= i < j < r.len() ==> (#[trigger] r[i]) != (#[trigger] r[j])
}

/// Bounds of the insertion position.
pub proof fn lemma_insert_pos<T>(r: Seq<(usize, T)>, i: usize)
    ensures
        0 <= insert_pos(r, i) <= r.len(),
        forall|k: int| 0 <= k < insert_pos(r, i) ==> (#[trigger] r[k]).0 <= i,
        insert_pos(r, i) < r.len() ==> r[insert_pos(r, i)].0 > i,
    decreases r.len(),
{
    if r.len() > 0 && r[0].0 <= i {
        lemma_insert_pos(r.drop_first(), i);
        assert forall|k: int| 0 <= k < insert_pos(r, i) implies (#[trigger] r[k]).0 <= i by {
            if k >= 1 {
                assert(r.drop_first()[k - 1] == r[k]);
            }
        }
        if insert_pos(r, i) < r.len() {
            assert(r.drop_first()[insert_pos(r, i) - 1] == r[insert_pos(r, i)]);
        }
    }
}

/// Inserting preserves order and distinctness, and adds exactly the new
/// binding to the members.
pub proof fn lemma_insert_pair<T>(r: Seq<(usize, T)>, p: (usize, T))
    requires
        pairs_sorted(r),
        pairs_distinct(r),
    ensures
        pairs_sorted(insert_pair(r, p)),
        pairs_distinct(insert_pair(r, p)),
        forall|q: (usize, T)| #[trigger]
            insert_pair(r, p).contains(q) <==> (r.contains(q) || q == p),
        r.len() <= insert_pair(r, p).len() <= r.len() + 1,
{
    if r.contains(p) {
    } else {
        let pos = insert_pos(r, p.0);
        lemma_insert_pos(r, p.0);
        let r2 = r.take(pos) + seq![p] + r.skip(pos);
        assert forall|i: int, j: int| 0 <= i < j < r2.len() implies (#[trigger] r2[i]).0 <= (
        #[trigger] r2[j]).0 by {
            assert(forall|k: int| 0 <= k < pos ==> r2[k] == r[k]);
            assert(r2[pos] == p);
            assert(forall|k: int| pos < k < r2.len() ==> r2[k] == r[k - 1]);
            if i < pos && j < pos {
            } else if i < pos && j == pos {
                assert(r[i].0 <= p.0);
            } else if i == pos && j > pos {
                assert(r[j - 1].0 > p.0);
            }
        }
        assert forall|i: int, j: int| 0 <= i < j < r2.len() implies (#[trigger] r2[i]) != (
        #[trigger] r2[j]) by {
            if i == pos {
                assert(r2[j] == r[j - 1]);
                if r2[j] == p {
                    assert(r.contains(p)) by {
                        assert(r[j - 1] == p);
                    }
                }
            } else if j == pos {
                assert(r2[i] == r[i]);
                if r2[i] == p {
                    assert(r.contains(p)) by {
                        assert(r[i] == p);
                    }
                }
            } else {
                let i0: int = if i < pos {
                    i
                } else {
                    i - 1
                };
                let j0: int = if j < pos {
                    j
                } else {
                    j - 1
                };
                assert(r2[i] == r[i0] && r2[j] == r[j0]);
                assert(i0 < j0);
            }
        }
        assert forall|q: (usize, T)| #[trigger]
            r2.contains(q) <==> (r.contains(q) || q == p) by {
            if r2.contains(q) {
                let k = choose|k: int| 0 <= k < r2.len() && r2[k] == q;
                if k == pos {
                } else {
                    let k0: int = if k < pos {
                        k
                    } else {
                        k - 1
                    };
                    assert(r[k0] == q);
                }
            }
            if r.contains(q) {
                let k = choose|k: int| 0 <= k < r.len() && r[k] == q;
                let k2: int = if k < pos {
                    k
                } else {
                    k + 1
                };
                assert(r2[k2] == q);
            }
            if q == p {
                assert(r2[pos] == q);
            }
        }
    }
}

/// Expanding an ascending range preserves order and distinctness.
pub proof fn lemma_expand_insert_from<T>(r: Seq<(usize, T)>, lo: int, hi: int, a: T)
    requires
        pairs_sorted(r),
        pairs_distinct(r),
    ensures
        pairs_sorted(expand_insert_from(r, lo, hi, a)),
        pairs_distinct(expand_insert_from(r, lo, hi, a)),
    decreases hi - lo + 1,
{
    if lo > hi || lo < 0 || lo > usize::MAX {
    } else {
        lemma_insert_pair(r, (lo as usize, a));
        lemma_expand_insert_from(insert_pair(r, (lo as usize, a)), lo + 1, hi, a);
    }
}

/// Expanding a range preserves order and distinctness.
pub proof fn lemma_expand_insert<T>(r: Seq<(usize, T)>, start: int, end: int, a: T)
    requires
        pairs_sorted(r),
        pairs_distinct(r),
    ensures
        pairs_sorted(expand_insert(r, start, end, a)),
        pairs_distinct(expand_insert(r, start, end, a)),
{
    lemma_expand_insert_from(r, vstd::math::min(start, end), vstd::math::max(start, end), a);
}

/* -------------------- ordered, duplicate-free indices ----------------- */

/// Insertion position for a bare index.
pub open spec fn idx_insert_pos(r: Seq<usize>, v: usize) -> int
    decreases r.len(),
{
    if r.len() == 0 {
        0
    } else if r[0] > v {
        0
    } else {
        1 + idx_insert_pos(r.drop_first(), v)
    }
}

/// Adds an index to an ordered sequence, keeping it ordered and
/// duplicate-free.
pub open spec fn idx_insert(r: Seq<usize>, v: usize) -> Seq<usize> {
    if r.contains(v) {
        r
    } else {
        let pos = idx_insert_pos(r, v);
        r.take(pos) + seq![v] + r.skip(pos)
    }
}

/// Adds every index of the ascending range `[lo, hi]`.
pub open spec fn idx_expand_from(r: Seq<usize>, lo: int, hi: int) -> Seq<usize>
    decreases hi - lo + 1,
{
    if lo > hi || lo < 0 || lo > usize::MAX {
        r
    } else {
        idx_expand_from(idx_insert(r, lo as usize), lo + 1, hi)
    }
}

/// Adds every index between `start` and `end`, taken as an unordered
/// pair: an inverted range selects the same closed interval.
pub open spec fn idx_expand(r: Seq<usize>, start: int, end: int) -> Seq<usize> {
    idx_expand_from(r, vstd::math::min(start, end), vstd::math::max(start, end))
}

/// Indices are in ascending order.
pub open spec fn idx_sorted(r: Seq<usize>) -> bool {
    forall|i: int, j: int| 0 <= i < j < r.len() ==> (#[trigger] r[i]) <= (#[trigger] r[j])
}

/// No index occurs twice.
pub open spec fn idx_distinct(r: Seq<usize>) -> bool {
    forall|i: int, j: int| 0 <= i < j < r.len() ==> (#[trigger] r[i]) != (#[trigger] r[j])
}

/// Bounds of the index insertion position.
pub proof fn lemma_idx_insert_pos(r: Seq<usize>, v: usize)
    ensures
        0 <= idx_insert_pos(r, v) <= r.len(),
        forall|k: int| 0 <= k < idx_insert_pos(r, v) ==> (#[trigger] r[k]) <= v,
        idx_insert_pos(r, v) < r.len() ==> r[idx_insert_pos(r, v)] > v,
    decreases r.len(),
{
    if r.len() > 0 && r[0] <= v {
        lemma_idx_insert_pos(r.drop_first(), v);
        assert forall|k: int| 0 <= k < idx_insert_pos(r, v) implies (#[trigger] r[k]) <= v by {
            if k >= 1 {
                assert(r.drop_first()[k - 1] == r[k]);
            }
        }
        if idx_insert_pos(r, v) < r.len() {
            assert(r.drop_first()[idx_insert_pos(r, v) - 1] == r[idx_insert_pos(r, v)]);
        }
    }
}

/// Inserting an index preserves order and distinctness and adds exactly
/// that index to the members.
pub proof fn lemma_idx_insert(r: Seq<usize>, v: usize)
    requires
        idx_sorted(r),
        idx_distinct(r),
    ensures
        idx_sorted(idx_insert(r, v)),
        idx_distinct(idx_insert(r, v)),
        forall|q: usize| #[trigger] idx_insert(r, v).contains(q) <==> (r.contains(q) || q == v),
        r.len() <= idx_insert(r, v).len() <= r.len() + 1,
{
    if r.contains(v) {
    } else {
        let pos = idx_insert_pos(r, v);
        lemma_idx_insert_pos(r, v);
        let r2 = r.take(pos) + seq![v] + r.skip(pos);
        assert(forall|k: int| 0 <= k < pos ==> #[trigger] r2[k] == r[k]);
        assert(r2[pos] == v);
        assert(forall|k: int| pos < k < r2.len() ==> #[trigger] r2[k] == r[k - 1]);
        assert forall|i: int, j: int| 0 <= i < j < r2.len() implies (#[trigger] r2[i]) <= (
        #[trigger] r2[j]) by {
            if i < pos && j == pos {
                assert(r[i] <= v);
            } else if i == pos && j > pos {
                assert(r[j - 1] > v);
            }
        }
        assert forall|i: int, j: int| 0 <= i < j < r2.len() implies (#[trigger] r2[i]) != (
        #[trigger] r2[j]) by {
            if i == pos {
                assert(r[j - 1] > v);
            } else if j == pos {
                assert(r[i] <= v);
                if r2[i] == v {
                    assert(r.contains(v)) by {
                        assert(r[i] == v);
                    }
                }
            }
        }
        assert forall|q: usize| #[trigger] r2.contains(q) <==> (r.contains(q) || q == v) by {
            if r2.contains(q) {
                let k = choose|k: int| 0 <= k < r2.len() && r2[k] == q;
                if k != pos {
                    let k0: int = if k < pos {
                        k
                    } else {
                        k - 1
                    };
                    assert(r[k0] == q);
                }
            }
            if r.contains(q) {
                let k = choose|k: int| 0 <= k < r.len() && r[k] == q;
                let k2: int = if k < pos {
                    k
                } else {
                    k + 1
                };
                assert(r2[k2] == q);
            }
            if q == v {
                assert(r2.contains(q)) by {
                    assert(r2[pos] == q);
                }
            }
        }
    }
}

/// Expanding an ascending range of indices preserves order and
/// distinctness.
pub proof fn lemma_idx_expand_from(r: Seq<usize>, lo: int, hi: int)
    requires
        idx_sorted(r),
        idx_distinct(r),
    ensures
        idx_sorted(idx_expand_from(r, lo, hi)),
        idx_distinct(idx_expand_from(r, lo, hi)),
    decreases hi - lo + 1,
{
    if lo > hi || lo < 0 || lo > usize::MAX {
    } else {
        lemma_idx_insert(r, lo as usize);
        lemma_idx_expand_from(idx_insert(r, lo as usize), lo + 1, hi);
    }
}

/// Expanding a range of indices preserves order and distinctness.
pub proof fn lemma_idx_expand(r: Seq<usize>, start: int, end: int)
    requires
        idx_sorted(r),
        idx_distinct(r),
    ensures
        idx_sorted(idx_expand(r, start, end)),
        idx_distinct(idx_expand(r, start, end)),
{
    lemma_idx_expand_from(r, vstd::math::min(start, end), vstd::math::max(start, end));
}

/* ------------------------------ offsets ------------------------------ */

/// The byte offset of token `i` within the whole expression: the
/// lengths of the earlier tokens plus one separator after each.
pub open spec fn off_plain(parts: Seq<Seq<char>>, i: int) -> int
    decreases i,
{
    if i <= 0 {
        0
    } else {
        off_plain(parts, i - 1) + parts[i - 1].len() + 1
    }
}

/// The running offset of the force grammar: the length of each trimmed
/// token so far, plus one per token.
pub open spec fn off_trim(parts: Seq<Seq<char>>, i: int) -> int
    decreases i,
{
    if i <= 0 {
        0
    } else {
        off_trim(parts, i - 1) + crate::text::trim_of(parts[i - 1]).len() + 1
    }
}

/// Plain offsets stay within the total length of the pieces plus one
/// per separator.
pub proof fn lemma_off_plain_bound(parts: Seq<Seq<char>>, i: int)
    requires
        0 <= i <= parts.len(),
    ensures
        0 <= off_plain(parts, i),
        off_plain(parts, i) <= crate::text::len_sum(parts.take(i)) + i,
        off_plain(parts, i) <= crate::text::len_sum(parts) + i,
    decreases i,
{
    crate::text::lemma_len_sum_prefix(parts, i);
    crate::text::lemma_len_sum_nonneg(parts);
    if i > 0 {
        lemma_off_plain_bound(parts, i - 1);
        assert(parts.take(i) =~= parts.take(i - 1).push(parts[i - 1]));
        crate::text::lemma_len_sum_push(parts.take(i - 1), parts[i - 1]);
        crate::text::lemma_len_sum_prefix(parts, i - 1);
    }
}

/// Trimmed offsets stay within the total length of the pieces plus one
/// per separator.
pub proof fn lemma_off_trim_bound(parts: Seq<Seq<char>>, i: int)
    requires
        0 <= i <= parts.len(),
    ensures
        0 <= off_trim(parts, i),
        off_trim(parts, i) <= crate::text::len_sum(parts.take(i)) + i,
        off_trim(parts, i) <= crate::text::len_sum(parts) + i,
    decreases i,
{
    crate::text::lemma_len_sum_prefix(parts, i);
    crate::text::lemma_len_sum_nonneg(parts);
    if i > 0 {
        lemma_off_trim_bound(parts, i - 1);
        assert(parts.take(i) =~= parts.take(i - 1).push(parts[i - 1]));
        crate::text::lemma_len_sum_push(parts.take(i - 1), parts[i - 1]);
        crate::text::lemma_trim_len(parts[i - 1]);
        crate::text::lemma_len_sum_prefix(parts, i - 1);
    }
}

/// The first position whose binding shares its index with the next one,
/// or `-1` when every index is bound once.
pub open spec fn first_conflict<T>(r: Seq<(usize, T)>) -> int
    decreases r.len(),
{
    if r.len() < 2 {
        -1
    } else if r[0].0 == r[1].0 {
        0
    } else {
        let t = first_conflict(r.drop_first());
        if t == -1 {
            -1
        } else {
            t + 1
        }
    }
}

/// Characterization of the first conflict position.
pub proof fn lemma_first_conflict<T>(r: Seq<(usize, T)>)
    ensures
        first_conflict(r) >= -1,
        first_conflict(r) == -1 ==> forall|k: int|
            0 <= k < r.len() - 1 ==> (#[trigger] r[k]).0 != r[k + 1].0,
        first_conflict(r) >= 0 ==> {
            &&& first_conflict(r) < r.len() - 1
            &&& r[first_conflict(r)].0 == r[first_conflict(r) + 1].0
            &&& forall|k: int| 0 <= k < first_conflict(r) ==> (#[trigger] r[k]).0 != r[k + 1].0
        },
    decreases r.len(),
{
    if r.len() < 2 {
    } else if r[0].0 == r[1].0 {
    } else {
        lemma_first_conflict(r.drop_first());
        assert(forall|k: int| 1 <= k < r.len() ==> #[trigger] r[k] == r.drop_first()[k - 1]);
        let t = first_conflict(r.drop_first());
        if t == -1 {
            assert forall|k: int| 0 <= k < r.len() - 1 implies (#[trigger] r[k]).0 != r[k + 1].0 by {
                if k >= 1 {
                    assert(r.drop_first()[k - 1].0 != r.drop_first()[k].0);
                }
            }
        } else {
            assert(r.drop_first()[t].0 == r.drop_first()[t + 1].0);
            assert(r[t + 1].0 == r[t + 2].0);
            assert forall|k: int| 0 <= k < first_conflict(r) implies (#[trigger] r[k]).0 != r[k
                + 1].0 by {
                if k >= 1 {
                    assert(r.drop_first()[k - 1].0 != r.drop_first()[k].0);
                }
            }
        }
    }
}

/// Expanding an ascending range adds exactly the bindings of `[lo, hi]`
/// with the given attribute to the members.
pub proof fn lemma_expand_insert_from_members<T>(r: Seq<(usize, T)>, lo: int, hi: int, attr: T)
    requires
        0 <= lo,
        pairs_sorted(r),
        pairs_distinct(r),
    ensures
        forall|q: (usize, T)| #[trigger]
            expand_insert_from(r, lo, hi, attr).contains(q) <==> (r.contains(q) || (lo
                <= q.0 as int <= hi && q.1 == attr)),
    decreases hi - lo + 1,
{
    if lo > hi || lo > usize::MAX {
        assert forall|q: (usize, T)| #[trigger]
            expand_insert_from(r, lo, hi, attr).contains(q) <==> (r.contains(q) || (lo
                <= q.0 as int <= hi && q.1 == attr)) by {
            if lo <= q.0 as int <= hi {
                assert(lo <= usize::MAX);
            }
        }
    } else {
        lemma_insert_pair(r, (lo as usize, attr));
        lemma_expand_insert_from_members(insert_pair(r, (lo as usize, attr)), lo + 1, hi, attr);
        assert forall|q: (usize, T)| #[trigger]
            expand_insert_from(r, lo, hi, attr).contains(q) <==> (r.contains(q) || (lo
                <= q.0 as int <= hi && q.1 == attr)) by {
            assert(expand_insert_from(r, lo, hi, attr) == expand_insert_from(
                insert_pair(r, (lo as usize, attr)),
                lo + 1,
                hi,
                attr,
            ));
            assert(expand_insert_from(insert_pair(r, (lo as usize, attr)), lo + 1, hi, attr).contains(
                q,
            ) <==> (insert_pair(r, (lo as usize, attr)).contains(q) || (lo + 1 <= q.0 as int <= hi
                && q.1 == attr)));
            assert(insert_pair(r, (lo as usize, attr)).contains(q) <==> (r.contains(q) || q == (
            lo as usize,
            attr,
            )));
        }
    }
}

/// Expanding a range adds exactly the bindings of its closed interval,
/// whichever way round its ends are given.
pub proof fn lemma_expand_insert_members<T>(r: Seq<(usize, T)>, a: int, b: int, attr: T)
    requires
        0 <= a,
        0 <= b,
        pairs_sorted(r),
        pairs_distinct(r),
    ensures
        forall|q: (usize, T)| #[trigger]
            expand_insert(r, a, b, attr).contains(q) <==> (r.contains(q) || (vstd::math::min(a, b)
                <= q.0 as int <= vstd::math::max(a, b) && q.1 == attr)),
{
    lemma_expand_insert_from_members(r, vstd::math::min(a, b), vstd::math::max(a, b), attr);
}

/// Ordered bindings with no adjacent pair sharing an index have
/// strictly increasing indices.
pub proof fn lemma_pairs_adjacent_strict<T>(r: Seq<(usize, T)>, i: int, j: int)
    requires
        pairs_sorted(r),
        forall|k: int| 0 <= k < r.len() - 1 ==> (#[trigger] r[k]).0 != r[k + 1].0,
        0 <= i < j < r.len(),
    ensures
        r[i].0 < r[j].0,
    decreases j - i,
{
    if j == i + 1 {
    } else {
        lemma_pairs_adjacent_strict(r, i, j - 1);
    }
}

/// Two ordered binding sequences with strictly increasing indices and
/// the same members are equal.
pub proof fn lemma_pairs_strict_eq<T>(a: Seq<(usize, T)>, b: Seq<(usize, T)>)
    requires
        pairs_sorted(a),
        forall|i: int, j: int| 0 <= i < j < a.len() ==> (#[trigger] a[i]).0 < (#[trigger] a[j]).0,
        pairs_sorted(b),
        forall|i: int, j: int| 0 <= i < j < b.len() ==> (#[trigger] b[i]).0 < (#[trigger] b[j]).0,
        forall|q: (usize, T)| #[trigger] a.contains(q) <==> #[trigger] b.contains(q),
    ensures
        a == b,
    decreases a.len(),
{
    if a.len() == 0 {
        if b.len() > 0 {
            assert(b.contains(b[0]));
            assert(a.contains(b[0]));
        }
        assert(a =~= b);
    } else {
        assert(a.contains(a[0]));
        assert(b.contains(a[0]));
        assert(b.len() > 0);
        assert(b.contains(b[0]));
        assert(a.contains(b[0]));
        let ia = choose|i: int| 0 <= i < a.len() && a[i] == b[0];
        let ib = choose|i: int| 0 <= i < b.len() && b[i] == a[0];
        assert(a[0].0 <= a[ia].0);
        assert(b[0].0 <= b[ib].0);
        assert(a[0].0 == b[0].0);
        assert(ia == 0);
        assert(a[0] == b[0]);
        let at = a.drop_first();
        let bt = b.drop_first();
        assert(forall|i: int| 0 <= i < at.len() ==> #[trigger] at[i] == a[i + 1]);
        assert(forall|i: int| 0 <= i < bt.len() ==> #[trigger] bt[i] == b[i + 1]);
        assert forall|q: (usize, T)| #[trigger] at.contains(q) <==> #[trigger] bt.contains(q) by {
            if at.contains(q) {
                let i = choose|i: int| 0 <= i < at.len() && at[i] == q;
                assert(a[i + 1] == q);
                assert(a.contains(q));
                assert(q != a[0]) by {
                    assert(a[0].0 < a[i + 1].0);
                }
                assert(b.contains(q));
                let i2 = choose|i2: int| 0 <= i2 < b.len() && b[i2] == q;
                assert(i2 != 0);
                assert(bt[i2 - 1] == q);
                assert(bt.contains(q));
            }
            if bt.contains(q) {
                let i = choose|i: int| 0 <= i < bt.len() && bt[i] == q;
                assert(b[i + 1] == q);
                assert(b.contains(q));
                assert(q != b[0]) by {
                    assert(b[0].0 < b[i + 1].0);
                }
                assert(a.contains(q));
                let i2 = choose|i2: int| 0 <= i2 < a.len() && a[i2] == q;
                assert(i2 != 0);
                assert(at[i2 - 1] == q);
                assert(at.contains(q));
            }
        }
        lemma_pairs_strict_eq(at, bt);
        assert(a.len() == b.len());
        assert forall|i: int| 0 <= i < a.len() implies a[i] == b[i] by {
            if i > 0 {
                assert(at[i - 1] == bt[i - 1]);
            }
        }
        assert(a =~= b);
    }
}

/* ----------------------------- letter case ---------------------------- */

/// Folds the upper-case form of a selector letter (axis, type or color)
/// to its lower-case form; every other character stands.
pub open spec fn fold_letter(c: char) -> char {
    if c == 'L' {
        'l'
    } else if c == 'C' {
        'c'
    } else if c == 'S' {
        's'
    } else if c == 'I' {
        'i'
    } else if c == 'F' {
        'f'
    } else if c == 'R' {
        'r'
    } else if c == 'G' {
        'g'
    } else if c == 'B' {
        'b'
    } else if c == 'Y' {
        'y'
    } else if c == 'X' {
        'x'
    } else if c == 'W' {
        'w'
    } else {
        c
    }
}

/// Two texts equal up to the ASCII case of the selector letters.
pub open spec fn case_equiv(s1: Seq<char>, s2: Seq<char>) -> bool {
    s1.len() == s2.len() && forall|i: int|
        0 <= i < s1.len() ==> fold_letter(#[trigger] s1[i]) == fold_letter(#[trigger] s2[i])
}

/// Characters that fold alike agree on every character class the
/// grammars read, and on the axis a letter names.
pub proof fn lemma_fold_char(a: char, b: char)
    requires
        fold_letter(a) == fold_letter(b),
    ensures
        is_digit(a) == is_digit(b),
        is_digit(a) ==> a == b,
        (a == '-') == (b == '-'),
        (a == ',') == (b == ','),
        (a == '\n') == (b == '\n'),
        crate::text::is_ws_char(a) == crate::text::is_ws_char(b),
        crate::setting::is_axis_char(a) == crate::setting::is_axis_char(b),
        crate::setting::is_axis_char(a) ==> crate::setting::axis_of(a) == crate::setting::axis_of(
            b,
        ),
{
}

/// Case-equivalent texts have the same digit runs.
pub proof fn lemma_digit_run_case(s1: Seq<char>, s2: Seq<char>, from: int)
    requires
        case_equiv(s1, s2),
        0 <= from <= s1.len(),
    ensures
        digit_run(s1, from) == digit_run(s2, from),
    decreases s1.len() - from,
{
    if from < s1.len() {
        lemma_fold_char(s1[from], s2[from]);
        if is_digit(s1[from]) {
            lemma_digit_run_case(s1, s2, from + 1);
        }
    }
}

/// Case-equivalent texts have the same last dash.
pub proof fn lemma_last_index_case(s1: Seq<char>, s2: Seq<char>, to: int)
    requires
        case_equiv(s1, s2),
        0 <= to <= s1.len(),
    ensures
        last_index_of(s1, '-', to) == last_index_of(s2, '-', to),
    decreases to,
{
    if to > 0 {
        lemma_fold_char(s1[to - 1], s2[to - 1]);
        if s1[to - 1] != '-' {
            lemma_last_index_case(s1, s2, to - 1);
        }
    }
}

/// Case-equivalent texts agree pointwise on the digit, dash, newline and
/// axis character classes.
pub proof fn lemma_case_pointwise(s1: Seq<char>, s2: Seq<char>)
    requires
        case_equiv(s1, s2),
    ensures
        forall|i: int|
            0 <= i < s1.len() ==> (is_digit(#[trigger] s1[i]) == is_digit(s2[i]) && (is_digit(
                s1[i],
            ) ==> s1[i] == s2[i]) && ((s1[i] == '-') == (s2[i] == '-')) && ((s1[i] == '\n') == (
            s2[i] == '\n')) && crate::setting::is_axis_char(s1[i])
                == crate::setting::is_axis_char(s2[i]) && (crate::setting::is_axis_char(s1[i])
                ==> crate::setting::axis_of(s1[i]) == crate::setting::axis_of(s2[i]))),
{
    assert forall|i: int|
        0 <= i < s1.len() implies (is_digit(#[trigger] s1[i]) == is_digit(s2[i]) && (is_digit(
        s1[i],
    ) ==> s1[i] == s2[i]) && ((s1[i] == '-') == (s2[i] == '-')) && ((s1[i] == '\n') == (s2[i]
        == '\n')) && crate::setting::is_axis_char(s1[i]) == crate::setting::is_axis_char(s2[i]) && (
    crate::setting::is_axis_char(s1[i]) ==> crate::setting::axis_of(s1[i])
        == crate::setting::axis_of(s2[i]))) by {
        lemma_fold_char(s1[i], s2[i]);
    }
}

/// Case-equivalent texts agree on where digits stand.
pub proof fn lemma_digits_in_case(s1: Seq<char>, s2: Seq<char>, a: int, b: int)
    requires
        case_equiv(s1, s2),
        0 <= a,
        b <= s1.len(),
    ensures
        digits_in(s1, a, b) == digits_in(s2, a, b),
{
    if digits_in(s1, a, b) {
        assert forall|i: int| a <= i < b implies is_digit(#[trigger] s2[i]) by {
            lemma_fold_char(s1[i], s2[i]);
        }
    }
    if digits_in(s2, a, b) {
        assert forall|i: int| a <= i < b implies is_digit(#[trigger] s1[i]) by {
            lemma_fold_char(s1[i], s2[i]);
        }
    }
}

/// Case-equivalent texts agree on where newlines stand.
pub proof fn lemma_clean_in_case(s1: Seq<char>, s2: Seq<char>, a: int, b: int)
    requires
        case_equiv(s1, s2),
        0 <= a,
        b <= s1.len(),
    ensures
        clean_in(s1, a, b) == clean_in(s2, a, b),
{
    if clean_in(s1, a, b) {
        assert forall|i: int| a <= i < b implies (#[trigger] s2[i]) != '\n' by {
            lemma_fold_char(s1[i], s2[i]);
        }
    }
    if clean_in(s2, a, b) {
        assert forall|i: int| a <= i < b implies (#[trigger] s1[i]) != '\n' by {
            lemma_fold_char(s1[i], s2[i]);
        }
    }
}

/// Case-equivalent texts trim to case-equivalent texts.
pub proof fn lemma_trim_case(s1: Seq<char>, s2: Seq<char>)
    requires
        case_equiv(s1, s2),
    ensures
        case_equiv(crate::text::trim_of(s1), crate::text::trim_of(s2)),
{
    lemma_ws_prefix_case(s1, s2);
    lemma_ws_suffix_case(s1, s2);
    crate::text::lemma_ws_prefix(s1);
    crate::text::lemma_ws_suffix(s1);
    let a = crate::text::ws_prefix_len(s1);
    let b = s1.len() - crate::text::ws_suffix_len(s1);
    if a < b {
        assert(forall|i: int|
            0 <= i < b - a ==> #[trigger] crate::text::trim_of(s1)[i] == s1[a + i]
                && crate::text::trim_of(s2)[i] == s2[a + i]);
    }
}

proof fn lemma_ws_prefix_case(s1: Seq<char>, s2: Seq<char>)
    requires
        case_equiv(s1, s2),
    ensures
        crate::text::ws_prefix_len(s1) == crate::text::ws_prefix_len(s2),
    decreases s1.len(),
{
    if s1.len() > 0 {
        lemma_fold_char(s1[0], s2[0]);
        if crate::text::is_ws_char(s1[0]) {
            assert(case_equiv(s1.drop_first(), s2.drop_first())) by {
                assert(forall|i: int|
                    0 <= i < s1.drop_first().len() ==> #[trigger] s1.drop_first()[i] == s1[i + 1]
                        && s2.drop_first()[i] == s2[i + 1]);
            }
            lemma_ws_prefix_case(s1.drop_first(), s2.drop_first());
        }
    }
}

proof fn lemma_ws_suffix_case(s1: Seq<char>, s2: Seq<char>)
    requires
        case_equiv(s1, s2),
    ensures
        crate::text::ws_suffix_len(s1) == crate::text::ws_suffix_len(s2),
    decreases s1.len(),
{
    if s1.len() > 0 {
        lemma_fold_char(s1.last(), s2.last());
        if crate::text::is_ws_char(s1.last()) {
            assert(case_equiv(s1.drop_last(), s2.drop_last())) by {
                assert(forall|i: int|
                    0 <= i < s1.drop_last().len() ==> #[trigger] s1.drop_last()[i] == s1[i]
                        && s2.drop_last()[i] == s2[i]);
            }
            lemma_ws_suffix_case(s1.drop_last(), s2.drop_last());
        }
    }
}

/// Case-equivalent expressions split into case-equivalent tokens.
pub proof fn lemma_split_case(s1: Seq<char>, s2: Seq<char>)
    requires
        case_equiv(s1, s2),
    ensures
        crate::text::split_of(s1, seq![',']).len() == crate::text::split_of(s2, seq![',']).len(),
        forall|k: int|
            0 <= k < crate::text::split_of(s1, seq![',']).len() ==> case_equiv(
                #[trigger] crate::text::split_of(s1, seq![','])[k],
                crate::text::split_of(s2, seq![','])[k],
            ),
    decreases s1.len(),
{
    let pat = seq![','];
    let parts1 = crate::text::split_of(s1, pat);
    let parts2 = crate::text::split_of(s2, pat);
    crate::text::lemma_split_len(s1, pat);
    crate::text::lemma_split_len(s2, pat);
    if s1.len() == 0 {
        assert(case_equiv(parts1[0], parts2[0]));
    } else {
        lemma_fold_char(s1[0], s2[0]);
        if crate::text::match_at(s1, pat, 0) {
            assert(s1[0] == ',') by {
                assert(s1.subrange(0, 1)[0] == s1[0]);
            }
            assert(s2[0] == ',');
            assert(crate::text::match_at(s2, pat, 0)) by {
                assert(s2.subrange(0, 1) =~= pat);
            }
            assert(case_equiv(s1.skip(1), s2.skip(1))) by {
                assert(forall|i: int|
                    0 <= i < s1.skip(1).len() ==> #[trigger] s1.skip(1)[i] == s1[i + 1]
                        && s2.skip(1)[i] == s2[i + 1]);
            }
            lemma_split_case(s1.skip(1), s2.skip(1));
            assert(parts1 == seq![Seq::<char>::empty()] + crate::text::split_of(s1.skip(1), pat));
            assert(parts2 == seq![Seq::<char>::empty()] + crate::text::split_of(s2.skip(1), pat));
            assert forall|k: int| 0 <= k < parts1.len() implies case_equiv(
                #[trigger] parts1[k],
                parts2[k],
            ) by {
                if k == 0 {
                    assert(case_equiv(Seq::<char>::empty(), Seq::<char>::empty()));
                } else {
                    assert(parts1[k] == crate::text::split_of(s1.skip(1), pat)[k - 1]);
                    assert(parts2[k] == crate::text::split_of(s2.skip(1), pat)[k - 1]);
                }
            }
        } else {
            assert(s1[0] != ',') by {
                if s1[0] == ',' {
                    assert(s1.subrange(0, 1) =~= pat);
                }
            }
            assert(s2[0] != ',');
            assert(!crate::text::match_at(s2, pat, 0)) by {
                if crate::text::match_at(s2, pat, 0) {
                    assert(s2.subrange(0, 1)[0] == s2[0]);
                }
            }
            assert(case_equiv(s1.drop_first(), s2.drop_first())) by {
                assert(forall|i: int|
                    0 <= i < s1.drop_first().len() ==> #[trigger] s1.drop_first()[i] == s1[i + 1]
                        && s2.drop_first()[i] == s2[i + 1]);
            }
            lemma_split_case(s1.drop_first(), s2.drop_first());
            let rest1 = crate::text::split_of(s1.drop_first(), pat);
            let rest2 = crate::text::split_of(s2.drop_first(), pat);
            crate::text::lemma_split_len(s1.drop_first(), pat);
            assert(parts1 == seq![seq![s1[0]] + rest1[0]] + rest1.drop_first());
            assert(parts2 == seq![seq![s2[0]] + rest2[0]] + rest2.drop_first());
            assert forall|k: int| 0 <= k < parts1.len() implies case_equiv(
                #[trigger] parts1[k],
                parts2[k],
            ) by {
                if k == 0 {
                    assert(case_equiv(rest1[0], rest2[0]));
                    assert(parts1[0] == seq![s1[0]] + rest1[0]);
                    assert(parts2[0] == seq![s2[0]] + rest2[0]);
                    assert(case_equiv(seq![s1[0]] + rest1[0], seq![s2[0]] + rest2[0])) by {
                        assert(forall|i: int|
                            1 <= i < (seq![s1[0]] + rest1[0]).len() ==> #[trigger] (seq![s1[0]]
                                + rest1[0])[i] == rest1[0][i - 1] && (seq![s2[0]] + rest2[0])[i]
                                == rest2[0][i - 1]);
                        assert((seq![s1[0]] + rest1[0])[0] == s1[0]);
                        assert((seq![s2[0]] + rest2[0])[0] == s2[0]);
                    }
                } else {
                    assert(parts1[k] == rest1[k]);
                    assert(parts2[k] == rest2[k]);
                    assert(case_equiv(rest1[k], rest2[k]));
                }
            }
        }
    }
}

/// The first conflict position is determined by its bounds.
pub proof fn lemma_first_conflict_is<T>(r: Seq<(usize, T)>, k: int)
    requires
        0 <= k < r.len() - 1,
        r[k].0 == r[k + 1].0,
        forall|j: int| 0 <= j < k ==> (#[trigger] r[j]).0 != r[j + 1].0,
    ensures
        first_conflict(r) == k,
    decreases r.len(),
{
    if k > 0 {
        assert(r[0].0 != r[1].0);
        assert(forall|j: int| 1 <= j < r.len() ==> #[trigger] r[j] == r.drop_first()[j - 1]);
        assert(r.drop_first()[k - 1].0 == r.drop_first()[k].0);
        assert forall|j: int| 0 <= j < k - 1 implies (#[trigger] r.drop_first()[j]).0
            != r.drop_first()[j + 1].0 by {
            assert(r[j + 1].0 != r[j + 2].0);
        }
        lemma_first_conflict_is(r.drop_first(), k - 1);
    }
}

} // verus!
