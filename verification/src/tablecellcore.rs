//! The cell value inference engine: types one raw text fragment as an
//! arbitrary-precision integer, a float, or an opaque string.
//!
//! Integer literals are read by an arbitrary-precision integer library;
//! the float decision needs observations about the fragment that only
//! floating-point arithmetic can make, so they enter as plain values in a
//! [`FloatProbe`] and the decision itself is verified for every
//! observation.

use vstd::prelude::*;
use vstd::string::{StrSliceExecFns, StringExecFns};
use crate::text::dec_of_int;

verus! {

/* ------------------------ integer literal model ----------------------- */

/// The value of a digit character in bases up to 36, or `-1` when the
/// character is no digit: `0`-`9`, then `a`-`z` or `A`-`Z` for 10-35.
pub open spec fn digit36(c: char) -> int {
    let u = c as u32;
    if 48 <= u && u <= 57 {
        u - 48
    } else if 97 <= u && u <= 122 {
        u - 97 + 10
    } else if 65 <= u && u <= 90 {
        u - 65 + 10
    } else {
        -1
    }
}

/// Number of sign characters at the front of a literal: at most one `+`
/// or `-`.
pub open spec fn sign_len(s: Seq<char>) -> int {
    if s.len() > 0 && (s[0] == '+' || s[0] == '-') {
        1
    } else {
        0
    }
}

/// True when the literal carries a minus sign.
pub open spec fn is_negative_literal(s: Seq<char>) -> bool {
    s.len() > 0 && s[0] == '-'
}

/// Number of radix prefix characters after the sign: `0b`, `0o` or `0x`.
pub open spec fn radix_prefix_len(u: Seq<char>) -> int {
    if u.len() >= 2 && u[0] == '0' && (u[1] == 'b' || u[1] == 'o' || u[1] == 'x') {
        2
    } else {
        0
    }
}

/// The base selected by the radix prefix; decimal without one.
pub open spec fn radix_of(u: Seq<char>) -> int {
    if u.len() >= 2 && u[0] == '0' && u[1] == 'b' {
        2
    } else if u.len() >= 2 && u[0] == '0' && u[1] == 'o' {
        8
    } else if u.len() >= 2 && u[0] == '0' && u[1] == 'x' {
        16
    } else {
        10
    }
}

/// A non-empty run of digits, every one valid in the given base.
pub open spec fn valid_radix_digits(v: Seq<char>, radix: int) -> bool {
    v.len() > 0 && forall|i: int| 0 <= i < v.len() ==> 0 <= digit36(#[trigger] v[i]) < radix
}

/// The value of a digit run in the given base, most significant first.
pub open spec fn radix_val(v: Seq<char>, radix: int) -> int
    decreases v.len(),
{
    if v.len() == 0 {
        0
    } else {
        radix_val(v.drop_last(), radix) * radix + digit36(v.last())
    }
}

/// The digit run of a literal: what follows the sign and radix prefix.
pub open spec fn literal_digits(s: Seq<char>) -> Seq<char> {
    let u = s.skip(sign_len(s));
    u.skip(radix_prefix_len(u))
}

/// A well-formed integer literal: an optional sign, an optional radix
/// prefix, then at least one digit of the base.
pub open spec fn valid_big_literal(s: Seq<char>) -> bool {
    valid_radix_digits(literal_digits(s), radix_of(s.skip(sign_len(s))))
}

/// The signed value of a well-formed integer literal.
pub open spec fn big_literal_value(s: Seq<char>) -> int {
    let mag = radix_val(literal_digits(s), radix_of(s.skip(sign_len(s))));
    if is_negative_literal(s) {
        -mag
    } else {
        mag
    }
}

/// Relies on ibig's IBig::from_str_with_radix_prefix, which reads an
/// optional sign, then an optional lowercase 0b/0o/0x radix prefix, then
/// a non-empty run of digits of that base, and on IBig's Display, which
/// renders the canonical decimal form.
#[verifier::external_body]
fn big_int_from_text(s: &str) -> (r: Option<String>)
    ensures
        r is Some <==> valid_big_literal(s@),
        r matches Some(d) ==> d@ == dec_of_int(big_literal_value(s@)),
{
    match ibig::IBig::from_str_with_radix_prefix(s) {
        Ok(v) => Some(v.to_string()),
        Err(_) => None,
    }
}

/* ----------------------------- float probe ---------------------------- */

/// The floating-point observations about one fragment that the inference
/// decision reads: whether the fragment parses as a float at all, the
/// renderings of the parsed value at both precisions, and three facts
/// about the narrow value. Callers gather these with real float
/// arithmetic; the decision below is verified for every observation.
pub struct FloatProbe {
    /// The fragment parses as a float.
    pub accepted: bool,
    /// Rendering of the fragment parsed at double precision.
    pub wide_text: String,
    /// Rendering of the fragment parsed at single precision.
    pub narrow_text: String,
    /// The single-precision value is infinite.
    pub narrow_infinite: bool,
    /// The single-precision value is NaN.
    pub narrow_nan: bool,
    /// The single-precision value equals zero.
    pub narrow_zero: bool,
}

/// Which floating-point precision a cell's rendering was taken at.
#[derive(Debug, Clone, Copy, PartialEq, Eq, Structural)]
pub enum FloatWidth {
    Narrow,
    Wide,
}

/// True when the fragment holds a digit other than zero anywhere: then
/// its zero value comes from rounding, not from the fragment itself.
pub open spec fn has_nonzero_digit(v: Seq<char>) -> bool {
    exists|i: int| 0 <= i < v.len() && 49 <= (#[trigger] v[i]) as u32 <= 57
}

/// Scans a fragment for a digit other than zero.
fn scan_nonzero_digit(s: &str) -> (r: bool)
    ensures
        r == has_nonzero_digit(s@),
{
    let n = s.unicode_len();
    let mut i: usize = 0;
    while i < n
        invariant
            0 <= i <= n,
            n == s@.len(),
            forall|j: int| 0 <= j < i ==> !(49 <= (#[trigger] s@[j]) as u32 <= 57),
        decreases n - i,
    {
        let c = s.get_char(i);
        if 49 <= (c as u32) && (c as u32) <= 57 {
            return true;
        }
        i = i + 1;
    }
    false
}

/* ------------------------------ the cell ------------------------------ */

/// A typed cell value: an opaque string, an arbitrary-precision integer,
/// or a float rendering with its precision. The constructors of this
/// type keep an integer cell's text in canonical decimal form; a value
/// assembled directly from the variants carries whatever text it was
/// given.
#[derive(Clone, Debug)]
pub enum Tablecellcore {
    Str(String),
    Int(String),
    Float(String, FloatWidth),
}

/// The shape of a cell value as the contracts state it.
pub enum CellSpec {
    Str(Seq<char>),
    Int(Seq<char>),
    Float(Seq<char>, FloatWidth),
}

/// A cell value has exactly the given shape.
pub open spec fn cell_is(c: Tablecellcore, m: CellSpec) -> bool {
    match (c, m) {
        (Tablecellcore::Str(a), CellSpec::Str(b)) => a@ == b,
        (Tablecellcore::Int(a), CellSpec::Int(b)) => a@ == b,
        (Tablecellcore::Float(a, wa), CellSpec::Float(b, wb)) => a@ == b && wa == wb,
        _ => false,
    }
}

/// The rendering a cell value holds.
pub open spec fn core_view(c: Tablecellcore) -> Seq<char> {
    match c {
        Tablecellcore::Str(t) => t@,
        Tablecellcore::Int(t) => t@,
        Tablecellcore::Float(t, _) => t@,
    }
}

/// The type tag the debugging rendering appends to a cell value.
pub open spec fn core_tag(c: Tablecellcore) -> Seq<char> {
    match c {
        Tablecellcore::Str(_) => "<str>"@,
        Tablecellcore::Int(_) => "<int>"@,
        Tablecellcore::Float(_, _) => "<float>"@,
    }
}

/// What auto-inference decides for a fragment, given the float
/// observations: an integer literal is an integer; a fragment that does
/// not parse as a float is a string; otherwise the narrow rendering is
/// kept exactly when both precisions render alike and the value carries
/// no precision the narrow form would lose; infinities stay wide and NaN
/// stays narrow.
pub open spec fn auto_model(v: Seq<char>, p: FloatProbe) -> CellSpec {
    if valid_big_literal(v) {
        CellSpec::Int(dec_of_int(big_literal_value(v)))
    } else if !p.accepted {
        CellSpec::Str(v)
    } else if p.narrow_infinite {
        CellSpec::Float(p.wide_text@, FloatWidth::Wide)
    } else if p.narrow_nan {
        CellSpec::Float(p.narrow_text@, FloatWidth::Narrow)
    } else if p.narrow_text@ == p.wide_text@ && p.narrow_zero {
        if has_nonzero_digit(v) {
            CellSpec::Float(p.wide_text@, FloatWidth::Wide)
        } else {
            CellSpec::Float(p.narrow_text@, FloatWidth::Narrow)
        }
    } else if p.narrow_text@ == p.wide_text@ {
        CellSpec::Float(p.narrow_text@, FloatWidth::Narrow)
    } else {
        CellSpec::Float(p.wide_text@, FloatWidth::Wide)
    }
}

/// Why a strict forced conversion failed.
#[derive(Clone, Copy, PartialEq, Eq, Structural, Debug)]
pub enum CellError {
    /// The fragment is not a well-formed integer literal.
    NotAnInteger,
    /// The fragment does not parse as a float.
    NotAFloat,
}

impl CellError {
    /// A description of the failure.
    pub fn describe(&self) -> (r: String)
        ensures
            *self is NotAnInteger ==> r@ == "the value cannot be parsed as an integer"@,
            *self is NotAFloat ==> r@ == "the value cannot be parsed as a float"@,
    {
        match self {
            CellError::NotAnInteger => String::from_str("the value cannot be parsed as an integer"),
            CellError::NotAFloat => String::from_str("the value cannot be parsed as a float"),
        }
    }
}

impl Tablecellcore {
    /// Types a fragment automatically: integer first, then float with
    /// the precision heuristic, else string.
    pub fn auto_from(value: &String, probe: &FloatProbe) -> (r: Self)
        ensures
            cell_is(r, auto_model(value@, *probe)),
    {
        if let Some(d) = big_int_from_text(value.as_str()) {
            Tablecellcore::Int(d)
        } else if !probe.accepted {
            Tablecellcore::Str(value.clone())
        } else if probe.narrow_infinite {
            Tablecellcore::Float(probe.wide_text.clone(), FloatWidth::Wide)
        } else if probe.narrow_nan {
            Tablecellcore::Float(probe.narrow_text.clone(), FloatWidth::Narrow)
        } else if probe.narrow_text == probe.wide_text && probe.narrow_zero {
            if scan_nonzero_digit(value.as_str()) {
                Tablecellcore::Float(probe.wide_text.clone(), FloatWidth::Wide)
            } else {
                Tablecellcore::Float(probe.narrow_text.clone(), FloatWidth::Narrow)
            }
        } else if probe.narrow_text == probe.wide_text {
            Tablecellcore::Float(probe.narrow_text.clone(), FloatWidth::Narrow)
        } else {
            Tablecellcore::Float(probe.wide_text.clone(), FloatWidth::Wide)
        }
    }

    /// The rendering of this cell value.
    pub fn to_string(&self) -> (r: String)
        ensures
            r@ == core_view(*self),
    {
        match self {
            Tablecellcore::Str(v) => v.clone(),
            Tablecellcore::Int(v) => v.clone(),
            Tablecellcore::Float(v, _) => v.clone(),
        }
    }

    /// The rendering of this cell value with its type tag, as the
    /// debugging output spells it.
    pub fn debug_string(&self) -> (r: String)
        ensures
            r@ == core_view(*self) + core_tag(*self),
    {
        match self {
            Tablecellcore::Str(v) => {
                let mut r = v.clone();
                r.append("<str>");
                r
            },
            Tablecellcore::Int(v) => {
                let mut r = v.clone();
                r.append("<int>");
                r
            },
            Tablecellcore::Float(v, _) => {
                let mut r = v.clone();
                r.append("<float>");
                r
            },
        }
    }

    /// Forces a fragment to an integer cell; fails exactly when it is no
    /// well-formed integer literal.
    pub fn force_as_int(value: &String) -> (r: Result<Self, CellError>)
        ensures
            r is Ok <==> valid_big_literal(value@),
            r matches Ok(c) ==> cell_is(
                c,
                CellSpec::Int(dec_of_int(big_literal_value(value@))),
            ),
            r matches Err(e) ==> e == CellError::NotAnInteger,
    {
        match big_int_from_text(value.as_str()) {
            Some(d) => Ok(Tablecellcore::Int(d)),
            None => Err(CellError::NotAnInteger),
        }
    }

    /// Forces a fragment to a float cell, stored at double precision;
    /// fails exactly when the fragment does not parse as a float.
    pub fn force_as_float(value: &String, probe: &FloatProbe) -> (r: Result<Self, CellError>)
        ensures
            r is Ok <==> probe.accepted,
            r matches Ok(c) ==> cell_is(c, CellSpec::Float(probe.wide_text@, FloatWidth::Wide)),
            r matches Err(e) ==> e == CellError::NotAFloat,
    {
        if probe.accepted {
            Ok(Tablecellcore::Float(probe.wide_text.clone(), FloatWidth::Wide))
        } else {
            Err(CellError::NotAFloat)
        }
    }

    /// Forces a fragment to a string cell; never fails.
    pub fn force_as_string(value: &String) -> (r: Self)
        ensures
            cell_is(r, CellSpec::Str(value@)),
    {
        Tablecellcore::Str(value.clone())
    }

    /// An exact copy of this cell value.
    pub fn duplicate(&self) -> (r: Self)
        ensures
            r == *self,
    {
        match self {
            Tablecellcore::Str(v) => Tablecellcore::Str(v.clone()),
            Tablecellcore::Int(v) => Tablecellcore::Int(v.clone()),
            Tablecellcore::Float(v, w) => Tablecellcore::Float(v.clone(), *w),
        }
    }
}

} // verus!
