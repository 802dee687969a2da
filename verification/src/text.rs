//! Character-level text utilities: decimal digits, number parsing and
//! rendering, whitespace trimming, and substring search and splitting.

use vstd::prelude::*;
use vstd::string::{StrSliceExecFns, StringExecFns};

verus! {

/* ------------------------------ digits ------------------------------ */

/// True for the ASCII decimal digits `0`-`9`.
pub open spec fn is_digit(c: char) -> bool {
    48 <= (c as u32) && (c as u32) <= 57
}

/// The numeric value of an ASCII decimal digit.
pub open spec fn digit_val(c: char) -> int {
    (c as u32) - 48
}

/// True when every character of `s` in `[from, to)` is a decimal digit.
pub open spec fn digits_in(s: Seq<char>, from: int, to: int) -> bool {
    forall|i: int| from <= i < to ==> is_digit(#[trigger] s[i])
}

/// True when no character of `s` in `[from, to)` is a newline. A newline
/// never matches the single-character wildcard of the token grammars.
pub open spec fn clean_in(s: Seq<char>, from: int, to: int) -> bool {
    forall|i: int| from <= i < to ==> (#[trigger] s[i]) != '\n'
}

/// The value of a sequence of decimal digits, most significant first.
pub open spec fn dec_val(s: Seq<char>) -> int
    decreases s.len(),
{
    if s.len() == 0 {
        0
    } else {
        dec_val(s.drop_last()) * 10 + digit_val(s.last())
    }
}

/// The value of a digit sequence is never negative.
pub proof fn lemma_dec_val_nonneg(s: Seq<char>)
    requires
        digits_in(s, 0, s.len() as int),
    ensures
        dec_val(s) >= 0,
    decreases s.len(),
{
    if s.len() > 0 {
        lemma_dec_val_nonneg(s.drop_last());
    }
}

/// Appending digits never decreases the value of a digit sequence.
pub proof fn lemma_dec_val_monotone(s: Seq<char>, k: int)
    requires
        0 <= k <= s.len(),
        digits_in(s, 0, s.len() as int),
    ensures
        dec_val(s) >= dec_val(s.take(k)),
    decreases s.len() - k,
{
    if k < s.len() {
        lemma_dec_val_monotone(s, k + 1);
        assert(s.take(k + 1).drop_last() =~= s.take(k));
        assert(s.take(k + 1).last() == s[k]);
        lemma_dec_val_nonneg(s.take(k));
    } else {
        assert(s.take(k) =~= s);
    }
}

/// Reads the decimal digits of `s` in `[from, to)` as a `usize`; yields
/// nothing exactly when the value does not fit.
pub fn parse_dec(s: &str, from: usize, to: usize) -> (r: Option<usize>)
    requires
        from <= to <= s@.len(),
        digits_in(s@, from as int, to as int),
    ensures
        r is Some <==> dec_val(s@.subrange(from as int, to as int)) <= usize::MAX,
        r matches Some(v) ==> v == dec_val(s@.subrange(from as int, to as int)),
{
    let ghost whole = s@.subrange(from as int, to as int);
    proof {
        lemma_dec_val_nonneg(whole);
    }
    let mut v: usize = 0;
    let mut i: usize = from;
    while i < to
        invariant
            from <= i <= to <= s@.len(),
            digits_in(s@, from as int, to as int),
            whole == s@.subrange(from as int, to as int),
            v == dec_val(whole.take(i - from)),
        decreases to - i,
    {
        let c = s.get_char(i);
        assert(is_digit(s@[i as int]));
        let d = ((c as u32) - 48) as usize;
        if v > (usize::MAX - d) / 10 {
            proof {
                let k = i + 1 - from;
                assert(whole.take(k).drop_last() =~= whole.take(k - 1));
                assert(whole.take(k).last() == s@[i as int]);
                assert(dec_val(whole.take(k)) == v * 10 + d);
                assert(v >= (usize::MAX - d) / 10 + 1);
                assert(10 * ((usize::MAX - d) / 10) + (usize::MAX - d) % 10 == usize::MAX - d);
                assert(v * 10 + d > usize::MAX);
                assert(digits_in(whole, 0, whole.len() as int));
                lemma_dec_val_monotone(whole, k);
            }
            return None;
        }
        proof {
            let k = i + 1 - from;
            assert(whole.take(k).drop_last() =~= whole.take(k - 1));
            assert(whole.take(k).last() == s@[i as int]);
            assert(10 * ((usize::MAX - d) / 10) + (usize::MAX - d) % 10 == usize::MAX - d);
        }
        v = v * 10 + d;
        i = i + 1;
    }
    proof {
        assert(whole.take(to - from) =~= whole);
    }
    Some(v)
}

/* ------------------------- decimal rendering ------------------------- */

/// The ASCII digit character for a value in `0..10`.
pub open spec fn digit_char(d: int) -> char {
    if d == 0 {
        '0'
    } else if d == 1 {
        '1'
    } else if d == 2 {
        '2'
    } else if d == 3 {
        '3'
    } else if d == 4 {
        '4'
    } else if d == 5 {
        '5'
    } else if d == 6 {
        '6'
    } else if d == 7 {
        '7'
    } else if d == 8 {
        '8'
    } else {
        '9'
    }
}

/// The canonical decimal rendering of a natural number: no sign, no
/// leading zeros, `0` for zero.
pub open spec fn dec_of_nat(n: nat) -> Seq<char>
    decreases n,
{
    if n < 10 {
        seq![digit_char(n as int)]
    } else {
        dec_of_nat(n / 10) + seq![digit_char((n % 10) as int)]
    }
}

/// The canonical decimal rendering of an integer: a `-` sign for negative
/// values, then the decimal digits of the magnitude.
pub open spec fn dec_of_int(v: int) -> Seq<char> {
    if v < 0 {
        seq!['-'] + dec_of_nat((-v) as nat)
    } else {
        dec_of_nat(v as nat)
    }
}

/// A one-character string slice for a digit value.
fn digit_str(d: usize) -> (r: &'static str)
    requires
        d < 10,
    ensures
        r@ == seq![digit_char(d as int)],
{
    proof {
        reveal_strlit("0");
        reveal_strlit("1");
        reveal_strlit("2");
        reveal_strlit("3");
        reveal_strlit("4");
        reveal_strlit("5");
        reveal_strlit("6");
        reveal_strlit("7");
        reveal_strlit("8");
        reveal_strlit("9");
    }
    match d {
        0 => "0",
        1 => "1",
        2 => "2",
        3 => "3",
        4 => "4",
        5 => "5",
        6 => "6",
        7 => "7",
        8 => "8",
        _ => "9",
    }
}

/// Renders a number in canonical decimal.
pub fn dec_string(n: usize) -> (r: String)
    ensures
        r@ == dec_of_nat(n as nat),
    decreases n,
{
    if n < 10 {
        String::from_str(digit_str(n))
    } else {
        let mut r = dec_string(n / 10);
        r.append(digit_str(n % 10));
        r
    }
}

/// Relies on String::push: appends exactly the given character.
#[verifier::external_body]
pub fn push_char(s: &mut String, c: char)
    ensures
        final(s)@ == old(s)@.push(c),
{
    s.push(c);
}

/* ----------------------------- whitespace ---------------------------- */

/// The Unicode `White_Space` characters, the set trimmed from both ends
/// of a token.
pub open spec fn is_ws_char(c: char) -> bool {
    let u = c as u32;
    (9 <= u && u <= 13) || u == 32 || u == 0x85 || u == 0xA0 || u == 0x1680 || (0x2000 <= u && u
        <= 0x200A) || u == 0x2028 || u == 0x2029 || u == 0x202F || u == 0x205F || u == 0x3000
}

/// Relies on char::is_whitespace: true exactly for the characters with
/// the Unicode `White_Space` property, as its documentation lists them.
pub assume_specification[ char::is_whitespace ](c: char) -> (r: bool)
    ensures
        r == is_ws_char(c),
;

/// Number of leading whitespace characters of `s`.
pub open spec fn ws_prefix_len(s: Seq<char>) -> int
    decreases s.len(),
{
    if s.len() == 0 {
        0
    } else if is_ws_char(s[0]) {
        1 + ws_prefix_len(s.drop_first())
    } else {
        0
    }
}

/// Number of trailing whitespace characters of `s`.
pub open spec fn ws_suffix_len(s: Seq<char>) -> int
    decreases s.len(),
{
    if s.len() == 0 {
        0
    } else if is_ws_char(s.last()) {
        1 + ws_suffix_len(s.drop_last())
    } else {
        0
    }
}

/// `s` with leading and trailing whitespace removed.
pub open spec fn trim_of(s: Seq<char>) -> Seq<char> {
    let a = ws_prefix_len(s);
    let b = s.len() - ws_suffix_len(s);
    if a < b {
        s.subrange(a, b)
    } else {
        Seq::<char>::empty()
    }
}

pub proof fn lemma_ws_prefix(s: Seq<char>)
    ensures
        0 <= ws_prefix_len(s) <= s.len(),
        forall|i: int| 0 <= i < ws_prefix_len(s) ==> is_ws_char(#[trigger] s[i]),
        ws_prefix_len(s) < s.len() ==> !is_ws_char(s[ws_prefix_len(s)]),
    decreases s.len(),
{
    if s.len() > 0 && is_ws_char(s[0]) {
        lemma_ws_prefix(s.drop_first());
        assert forall|i: int| 0 <= i < ws_prefix_len(s) implies is_ws_char(#[trigger] s[i]) by {
            if i >= 1 {
                assert(is_ws_char(s.drop_first()[i - 1]));
            }
        }
    }
}

pub proof fn lemma_ws_suffix(s: Seq<char>)
    ensures
        0 <= ws_suffix_len(s) <= s.len(),
        forall|i: int| s.len() - ws_suffix_len(s) <= i < s.len() ==> is_ws_char(#[trigger] s[i]),
        ws_suffix_len(s) < s.len() ==> !is_ws_char(s[s.len() - ws_suffix_len(s) - 1]),
    decreases s.len(),
{
    if s.len() > 0 && is_ws_char(s.last()) {
        lemma_ws_suffix(s.drop_last());
        assert forall|i: int| s.len() - ws_suffix_len(s) <= i < s.len() implies is_ws_char(
            #[trigger] s[i],
        ) by {
            if i < s.len() - 1 {
                assert(s.drop_last()[i] == s[i]);
            }
        }
    }
}

/// Characterization of a whitespace prefix length by its bounds.
proof fn lemma_ws_prefix_is(s: Seq<char>, a: int)
    requires
        0 <= a <= s.len(),
        forall|i: int| 0 <= i < a ==> is_ws_char(#[trigger] s[i]),
        a < s.len() ==> !is_ws_char(s[a]),
    ensures
        ws_prefix_len(s) == a,
    decreases s.len(),
{
    if s.len() > 0 && is_ws_char(s[0]) {
        lemma_ws_prefix_is(s.drop_first(), a - 1);
    }
}

/// Characterization of a whitespace suffix length by its bounds.
proof fn lemma_ws_suffix_is(s: Seq<char>, b: int)
    requires
        0 <= b <= s.len(),
        forall|i: int| s.len() - b <= i < s.len() ==> is_ws_char(#[trigger] s[i]),
        b < s.len() ==> !is_ws_char(s[s.len() - b - 1]),
    ensures
        ws_suffix_len(s) == b,
    decreases s.len(),
{
    if s.len() > 0 && is_ws_char(s.last()) {
        assert(b > 0);
        lemma_ws_suffix_is(s.drop_last(), b - 1);
    }
}

/// Removes leading and trailing whitespace.
pub fn trim_str<'a>(s: &'a str) -> (r: &'a str)
    ensures
        r@ == trim_of(s@),
{
    let n = s.unicode_len();
    let mut a: usize = 0;
    while a < n && s.get_char(a).is_whitespace()
        invariant
            0 <= a <= n,
            n == s@.len(),
            forall|i: int| 0 <= i < a ==> is_ws_char(#[trigger] s@[i]),
        decreases n - a,
    {
        a = a + 1;
    }
    let mut b: usize = n;
    while b > a && s.get_char(b - 1).is_whitespace()
        invariant
            a <= b <= n,
            n == s@.len(),
            forall|i: int| b <= i < n ==> is_ws_char(#[trigger] s@[i]),
        decreases b,
    {
        b = b - 1;
    }
    if a >= b {
        proof {
            lemma_ws_prefix(s@);
            lemma_ws_suffix(s@);
            assert(ws_prefix_len(s@) >= s@.len() - ws_suffix_len(s@)) by {
                if ws_prefix_len(s@) < s@.len() - ws_suffix_len(s@) {
                    let p = ws_prefix_len(s@);
                    if p < a {
                        assert(!is_ws_char(s@[p]));
                        assert(is_ws_char(s@[p]));
                    } else {
                        assert(a <= p);
                        assert(b <= p || (s@.len() - ws_suffix_len(s@)) <= b - 1);
                        if b <= p {
                            assert(is_ws_char(s@[p]));
                        } else {
                            assert(b - 1 >= s@.len() - ws_suffix_len(s@));
                            assert(b > a);
                            assert(is_ws_char(s@[b - 1]));
                        }
                    }
                }
            }
            reveal_strlit("");
        }
        ""
    } else {
        proof {
            lemma_ws_prefix_is(s@, a as int);
            lemma_ws_suffix_is(s@, (n - b) as int);
        }
        s.substring_char(a, b)
    }
}

/* ----------------------------- piece lengths ------------------------- */

/// Total length of a sequence of pieces.
pub open spec fn len_sum(parts: Seq<Seq<char>>) -> int
    decreases parts.len(),
{
    if parts.len() == 0 {
        0
    } else {
        parts[0].len() + len_sum(parts.drop_first())
    }
}

/// The total length of pieces is never negative.
pub proof fn lemma_len_sum_nonneg(parts: Seq<Seq<char>>)
    ensures
        len_sum(parts) >= 0,
    decreases parts.len(),
{
    if parts.len() > 0 {
        lemma_len_sum_nonneg(parts.drop_first());
    }
}

/// Total length distributes over appending one piece.
pub proof fn lemma_len_sum_push(parts: Seq<Seq<char>>, p: Seq<char>)
    ensures
        len_sum(parts.push(p)) == len_sum(parts) + p.len(),
    decreases parts.len(),
{
    if parts.len() == 0 {
        assert(parts.push(p)[0] == p);
        assert(parts.push(p).drop_first() =~= Seq::<Seq<char>>::empty());
        assert(len_sum(parts.push(p)) == p.len() + len_sum(Seq::<Seq<char>>::empty()));
        assert(len_sum(Seq::<Seq<char>>::empty()) == 0);
        assert(len_sum(parts) == 0);
    } else {
        assert(parts.push(p).drop_first() =~= parts.drop_first().push(p));
        lemma_len_sum_push(parts.drop_first(), p);
        assert(parts.push(p)[0] == parts[0]);
        assert(len_sum(parts.push(p)) == parts[0].len() + len_sum(parts.push(p).drop_first()));
        assert(len_sum(parts.push(p).drop_first()) == len_sum(parts.drop_first()) + p.len());
        assert(len_sum(parts) == parts[0].len() + len_sum(parts.drop_first()));
    }
}

/// A prefix of the pieces carries at most the total length.
pub proof fn lemma_len_sum_prefix(parts: Seq<Seq<char>>, k: int)
    requires
        0 <= k <= parts.len(),
    ensures
        len_sum(parts.take(k)) <= len_sum(parts),
    decreases parts.len() - k,
{
    if k < parts.len() {
        lemma_len_sum_prefix(parts, k + 1);
        assert(parts.take(k + 1) =~= parts.take(k).push(parts[k]));
        lemma_len_sum_push(parts.take(k), parts[k]);
    } else {
        assert(parts.take(k) =~= parts);
    }
}

/// Trimming never lengthens a token.
pub proof fn lemma_trim_len(s: Seq<char>)
    ensures
        0 <= trim_of(s).len() <= s.len(),
{
    lemma_ws_prefix(s);
    lemma_ws_suffix(s);
}

/* ------------------------- search and split -------------------------- */

/// True when `pat` occurs in `s` at position `i`.
pub open spec fn match_at(s: Seq<char>, pat: Seq<char>, i: int) -> bool {
    0 <= i && i + pat.len() <= s.len() && s.subrange(i, i + pat.len()) == pat
}

/// True when `c` occurs in `s`.
pub open spec fn seq_contains_char(s: Seq<char>, c: char) -> bool {
    exists|i: int| 0 <= i < s.len() && s[i] == c
}

/// Looks for `c` in `s`; true exactly when it occurs.
pub fn contains_char(s: &str, c: char) -> (r: bool)
    ensures
        r == seq_contains_char(s@, c),
{
    let n = s.unicode_len();
    let mut i: usize = 0;
    while i < n
        invariant
            0 <= i <= n,
            n == s@.len(),
            forall|j: int| 0 <= j < i ==> s@[j] != c,
        decreases n - i,
    {
        if s.get_char(i) == c {
            return true;
        }
        i = i + 1;
    }
    false
}

/// Compares `pat` against `s` at position `i`.
fn match_at_exec(s: &str, pat: &str, i: usize) -> (r: bool)
    requires
        i <= s@.len(),
    ensures
        r == match_at(s@, pat@, i as int),
{
    let m = pat.unicode_len();
    let n = s.unicode_len();
    if n - i < m {
        assert(!match_at(s@, pat@, i as int));
        return false;
    }
    let mut k: usize = 0;
    while k < m
        invariant
            0 <= k <= m,
            m == pat@.len(),
            n == s@.len(),
            i + m <= n,
            forall|j: int| 0 <= j < k ==> s@[i + j] == pat@[j],
        decreases m - k,
    {
        if s.get_char(i + k) != pat.get_char(k) {
            assert(s@.subrange(i as int, i + pat@.len())[k as int] != pat@[k as int]);
            return false;
        }
        k = k + 1;
    }
    proof {
        assert(s@.subrange(i as int, i + pat@.len()) =~= pat@);
    }
    true
}

/// Finds the first occurrence of `pat` in `s` at or after `from`.
pub fn find_from(s: &str, pat: &str, from: usize) -> (r: Option<usize>)
    requires
        from <= s@.len(),
    ensures
        r matches Some(i) ==> from <= i && match_at(s@, pat@, i as int) && forall|j: int|
            from <= j < i ==> !match_at(s@, pat@, j),
        r is None ==> forall|j: int| from <= j ==> !match_at(s@, pat@, j),
{
    let n = s.unicode_len();
    let mut i: usize = from;
    loop
        invariant
            from <= i <= n,
            n == s@.len(),
            forall|j: int| from <= j < i ==> !match_at(s@, pat@, j),
        decreases n - i,
    {
        if match_at_exec(s, pat, i) {
            return Some(i);
        }
        if i == n {
            assert forall|j: int| from <= j implies !match_at(s@, pat@, j) by {
                if j > i {
                    assert(j + pat@.len() > s@.len());
                }
            }
            return None;
        }
        i = i + 1;
    }
}

/// The pieces of `s` between the non-overlapping, leftmost occurrences of
/// `pat`; one piece more than there are occurrences.
pub open spec fn split_of(s: Seq<char>, pat: Seq<char>) -> Seq<Seq<char>>
    decreases s.len(),
{
    if pat.len() == 0 {
        seq![s]
    } else if s.len() == 0 {
        seq![Seq::<char>::empty()]
    } else if match_at(s, pat, 0) {
        seq![Seq::<char>::empty()] + split_of(s.skip(pat.len() as int), pat)
    } else {
        let rest = split_of(s.drop_first(), pat);
        seq![seq![s[0]] + rest[0]] + rest.drop_first()
    }
}

/// A split always has at least one piece.
pub proof fn lemma_split_len(s: Seq<char>, pat: Seq<char>)
    ensures
        split_of(s, pat).len() >= 1,
    decreases s.len(),
{
    if pat.len() == 0 || s.len() == 0 {
    } else if match_at(s, pat, 0) {
        lemma_split_len(s.skip(pat.len() as int), pat);
    } else {
        lemma_split_len(s.drop_first(), pat);
    }
}

/// Unfolds a split at its first occurrence: the first piece runs to the
/// occurrence, and the rest is the split of what follows it.
pub proof fn lemma_split_first(s: Seq<char>, pat: Seq<char>, i: int)
    requires
        pat.len() >= 1,
        0 <= i <= s.len(),
        forall|j: int| 0 <= j < i ==> !match_at(s, pat, j),
        i < s.len() || match_at(s, pat, i) || i == s.len(),
    ensures
        match_at(s, pat, i) ==> split_of(s, pat) == seq![s.take(i)] + split_of(
            s.skip(i + pat.len()),
            pat,
        ),
        (forall|j: int| 0 <= j ==> !match_at(s, pat, j)) ==> split_of(s, pat) == seq![s],
    decreases s.len(),
{
    lemma_split_len(s, pat);
    if s.len() == 0 {
        if match_at(s, pat, i) {
            assert(pat.len() == 0);
        }
        assert(split_of(s, pat) == seq![Seq::<char>::empty()]);
        assert(s =~= Seq::<char>::empty());
        assert(seq![s] =~= seq![Seq::<char>::empty()]);
    } else if match_at(s, pat, 0) {
        assert(i == 0 || !match_at(s, pat, 0));
        assert(i == 0);
        assert(s.take(0) =~= Seq::<char>::empty());
        assert(split_of(s, pat) == seq![Seq::<char>::empty()] + split_of(
            s.skip(pat.len() as int),
            pat,
        ));
    } else {
        let t = s.drop_first();
        if match_at(s, pat, i) {
            assert(i >= 1);
            assert forall|j: int| 0 <= j < i - 1 implies !match_at(t, pat, j) by {
                if match_at(t, pat, j) {
                    assert(t.subrange(j, j + pat.len()) =~= s.subrange(j + 1, j + 1 + pat.len()));
                    assert(match_at(s, pat, j + 1));
                }
            }
            assert(match_at(t, pat, i - 1)) by {
                assert(s.subrange(i, i + pat.len()) =~= t.subrange(i - 1, i - 1 + pat.len()));
            }
            lemma_split_first(t, pat, i - 1);
            let rest = split_of(t, pat);
            assert(rest == seq![t.take(i - 1)] + split_of(t.skip(i - 1 + pat.len()), pat));
            assert(rest[0] == t.take(i - 1));
            assert(seq![s[0]] + rest[0] =~= s.take(i));
            assert(rest.drop_first() =~= split_of(t.skip(i - 1 + pat.len()), pat));
            assert(t.skip(i - 1 + pat.len()) =~= s.skip(i + pat.len()));
            assert(split_of(s, pat) == seq![seq![s[0]] + rest[0]] + rest.drop_first());
            assert(split_of(s, pat) =~= seq![s.take(i)] + split_of(s.skip(i + pat.len()), pat));
        }
        if forall|j: int| 0 <= j ==> !match_at(s, pat, j) {
            assert forall|j: int| 0 <= j implies !match_at(t, pat, j) by {
                if match_at(t, pat, j) {
                    assert(t.subrange(j, j + pat.len()) =~= s.subrange(j + 1, j + 1 + pat.len()));
                    assert(match_at(s, pat, j + 1));
                }
            }
            lemma_split_first(t, pat, if i >= 1 {
                i - 1
            } else {
                0
            });
            let rest = split_of(t, pat);
            assert(rest == seq![t]);
            assert(seq![s[0]] + rest[0] =~= s);
            assert(split_of(s, pat) =~= seq![s]);
        }
    }
}

/// The pieces of a split, joined by the pattern, have exactly the length
/// of the whole.
pub proof fn lemma_split_len_sum(s: Seq<char>, pat: Seq<char>)
    requires
        pat.len() >= 1,
    ensures
        len_sum(split_of(s, pat)) + (split_of(s, pat).len() - 1) * pat.len() == s.len(),
    decreases s.len(),
{
    lemma_split_len(s, pat);
    if s.len() == 0 {
        assert(split_of(s, pat) == seq![Seq::<char>::empty()]);
        assert(seq![Seq::<char>::empty()].drop_first() =~= Seq::<Seq<char>>::empty());
        assert(len_sum(Seq::<Seq<char>>::empty()) == 0);
        assert(split_of(s, pat)[0] == Seq::<char>::empty());
        assert(split_of(s, pat).drop_first() == Seq::<Seq<char>>::empty());
        assert(len_sum(split_of(s, pat)) == 0);
        assert((split_of(s, pat).len() - 1) * pat.len() == 0);
    } else if match_at(s, pat, 0) {
        let rest = split_of(s.skip(pat.len() as int), pat);
        lemma_split_len(s.skip(pat.len() as int), pat);
        lemma_split_len_sum(s.skip(pat.len() as int), pat);
        let parts = split_of(s, pat);
        assert(parts == seq![Seq::<char>::empty()] + rest);
        assert(parts.drop_first() =~= rest);
        assert(len_sum(parts) == len_sum(rest));
        assert((parts.len() - 1) * pat.len() == (rest.len() - 1) * pat.len() + pat.len())
            by (nonlinear_arith)
            requires
                parts.len() == rest.len() + 1,
        ;
    } else {
        let t = s.drop_first();
        let rest = split_of(t, pat);
        lemma_split_len(t, pat);
        lemma_split_len_sum(t, pat);
        let parts = split_of(s, pat);
        assert(parts == seq![seq![s[0]] + rest[0]] + rest.drop_first());
        assert(parts.drop_first() =~= rest.drop_first());
        assert(rest =~= seq![rest[0]] + rest.drop_first());
        assert(len_sum(rest) == rest[0].len() + len_sum(rest.drop_first())) by {
            assert(rest[0] == (seq![rest[0]] + rest.drop_first())[0]);
            assert(rest.drop_first() =~= (seq![rest[0]] + rest.drop_first()).drop_first());
        }
        assert(len_sum(parts) == (seq![s[0]] + rest[0]).len() + len_sum(rest.drop_first()));
        assert((parts.len() - 1) * pat.len() == (rest.len() - 1) * pat.len()) by (nonlinear_arith)
            requires
                parts.len() == rest.len(),
        ;
    }
}

/// Splits `s` on the occurrences of `pat`.
pub fn split_str(s: &str, pat: &str) -> (r: Vec<String>)
    requires
        pat@.len() >= 1,
    ensures
        r.deep_view() == split_of(s@, pat@),
{
    let n = s.unicode_len();
    let mut r: Vec<String> = Vec::new();
    let mut pos: usize = 0;
    proof {
        assert(s@.skip(0) =~= s@);
        assert(r.deep_view() =~= Seq::<Seq<char>>::empty());
        assert((r.deep_view() + split_of(s@, pat@)) =~= split_of(s@, pat@));
    }
    loop
        invariant
            pos <= n,
            n == s@.len(),
            pat@.len() >= 1,
            r.deep_view() + split_of(s@.skip(pos as int), pat@) == split_of(s@, pat@),
        decreases n - pos,
    {
        match find_from(s, pat, pos) {
            Some(i) => {
                let piece = s.substring_char(pos, i);
                r.push(String::from_str(piece));
                proof {
                    let suff = s@.skip(pos as int);
                    assert forall|j: int| 0 <= j < i - pos implies !match_at(suff, pat@, j) by {
                        if match_at(suff, pat@, j) {
                            assert(suff.subrange(j, j + pat@.len()) =~= s@.subrange(
                                pos + j,
                                pos + j + pat@.len(),
                            ));
                            assert(match_at(s@, pat@, pos + j));
                        }
                    }
                    assert(match_at(suff, pat@, i - pos)) by {
                        assert(s@.subrange(i as int, i + pat@.len()) =~= suff.subrange(
                            i - pos,
                            i - pos + pat@.len(),
                        ));
                    }
                    lemma_split_first(suff, pat@, i - pos);
                    assert(suff.take(i - pos) =~= s@.subrange(pos as int, i as int));
                    assert(suff.skip(i - pos + pat@.len()) =~= s@.skip(i + pat@.len()));
                    assert(r.deep_view() + split_of(s@.skip(i + pat@.len()), pat@) =~= split_of(
                        s@,
                        pat@,
                    ));
                }
                let next = i + pat.unicode_len();
                pos = next;
            },
            None => {
                let piece = s.substring_char(pos, n);
                r.push(String::from_str(piece));
                proof {
                    let suff = s@.skip(pos as int);
                    assert forall|j: int| 0 <= j implies !match_at(suff, pat@, j) by {
                        if match_at(suff, pat@, j) {
                            assert(suff.subrange(j, j + pat@.len()) =~= s@.subrange(
                                pos + j,
                                pos + j + pat@.len(),
                            ));
                            assert(match_at(s@, pat@, pos + j));
                        }
                    }
                    lemma_split_first(suff, pat@, 0);
                    assert(suff =~= s@.subrange(pos as int, n as int));
                    assert(r.deep_view() =~= split_of(s@, pat@));
                }
                return r;
            },
        }
    }
}

} // verus!
