//! A table cell: a typed value together with a display color.

use vstd::prelude::*;
use vstd::string::{StrSliceExecFns, StringExecFns};
use crate::setting::output::{OutputColor, color_name};
use crate::setting::input::ForceType;
use crate::tablecellcore::{
    Tablecellcore, CellSpec, FloatProbe, FloatWidth, cell_is, auto_model, core_view, core_tag,
    valid_big_literal, big_literal_value,
};
use crate::text::dec_of_int;

verus! {

/// A source of floating-point observations about text fragments. The
/// library's callers implement it with real float arithmetic; inference
/// is verified for every observation a source hands back.
pub trait FloatSource {
    /// The float observations about one fragment.
    fn probe(&self, s: &str) -> FloatProbe;
}

/// A source that rejects every fragment: with it, inference types every
/// non-integer fragment as text.
pub struct NoFloats;

impl FloatSource for NoFloats {
    fn probe(&self, s: &str) -> FloatProbe {
        FloatProbe {
            accepted: false,
            wide_text: String::new(),
            narrow_text: String::new(),
            narrow_infinite: false,
            narrow_nan: false,
            narrow_zero: false,
        }
    }
}

/// What a forced conversion yields: forcing to string always succeeds;
/// forcing to integer or float falls back to auto-inference when the
/// fragment cannot be read as the requested type.
pub open spec fn forced_model(v: Seq<char>, ft: ForceType, p: FloatProbe) -> CellSpec {
    match ft {
        ForceType::S => CellSpec::Str(v),
        ForceType::I => if valid_big_literal(v) {
            CellSpec::Int(dec_of_int(big_literal_value(v)))
        } else {
            auto_model(v, p)
        },
        ForceType::F => if p.accepted {
            CellSpec::Float(p.wide_text@, FloatWidth::Wide)
        } else {
            auto_model(v, p)
        },
    }
}

/// The rendering of a cell with its color: plain for black, wrapped in
/// the color's escape code otherwise.
pub open spec fn colored_text(color: OutputColor, text: Seq<char>) -> Seq<char> {
    match color {
        OutputColor::Black => text,
        OutputColor::Red => "\u{1b}[31m"@ + text + "\u{1b}[0m"@,
        OutputColor::Green => "\u{1b}[32m"@ + text + "\u{1b}[0m"@,
        OutputColor::Yellow => "\u{1b}[33m"@ + text + "\u{1b}[0m"@,
        OutputColor::Blue => "\u{1b}[34m"@ + text + "\u{1b}[0m"@,
        OutputColor::White => "\u{1b}[37m"@ + text + "\u{1b}[0m"@,
        OutputColor::Grey => "\u{1b}[90m"@ + text + "\u{1b}[0m"@,
    }
}

/// A cell in a table: a typed value and a color.
#[derive(Clone, Debug)]
pub struct Tablecell {
    pub core: Tablecellcore,
    pub color: OutputColor,
}

impl Tablecell {
    /// Types a fragment automatically and paints it black.
    pub fn auto_from(value: String, probe: &FloatProbe) -> (r: Self)
        ensures
            cell_is(r.core, auto_model(value@, *probe)),
            r.color == OutputColor::Black,
    {
        Tablecell { core: Tablecellcore::auto_from(&value, probe), color: OutputColor::Black }
    }

    /// Applies the given forced conversion and paints the cell black.
    pub fn from_type(value: String, force_type: ForceType, probe: &FloatProbe) -> (r: Self)
        ensures
            cell_is(r.core, forced_model(value@, force_type, *probe)),
            r.color == OutputColor::Black,
    {
        match force_type {
            ForceType::S => Tablecell::force_as_string(value),
            ForceType::I => Tablecell::force_as_int(value, probe),
            ForceType::F => Tablecell::force_as_float(value, probe),
        }
    }

    /// Forces a fragment to a string cell.
    pub fn force_as_string(value: String) -> (r: Self)
        ensures
            cell_is(r.core, CellSpec::Str(value@)),
            r.color == OutputColor::Black,
    {
        Tablecell { core: Tablecellcore::force_as_string(&value), color: OutputColor::Black }
    }

    /// Forces a fragment to an integer cell, falling back to
    /// auto-inference when it is no integer literal.
    pub fn force_as_int(value: String, probe: &FloatProbe) -> (r: Self)
        ensures
            cell_is(r.core, forced_model(value@, ForceType::I, *probe)),
            r.color == OutputColor::Black,
    {
        match Tablecellcore::force_as_int(&value) {
            Ok(cell) => Tablecell { core: cell, color: OutputColor::Black },
            Err(_) => Tablecell::auto_from(value, probe),
        }
    }

    /// Forces a fragment to a float cell, falling back to auto-inference
    /// when it does not parse as a float.
    pub fn force_as_float(value: String, probe: &FloatProbe) -> (r: Self)
        ensures
            cell_is(r.core, forced_model(value@, ForceType::F, *probe)),
            r.color == OutputColor::Black,
    {
        match Tablecellcore::force_as_float(&value, probe) {
            Ok(cell) => Tablecell { core: cell, color: OutputColor::Black },
            Err(_) => Tablecell::auto_from(value, probe),
        }
    }

    /// Repaints the cell.
    pub fn set_color(&mut self, color: OutputColor)
        ensures
            final(self).core == old(self).core,
            final(self).color == color,
    {
        self.color = color;
    }

    /// The number of characters of the value's rendering, color escape
    /// codes not counted.
    pub fn len(&self) -> (r: usize)
        ensures
            r == core_view(self.core).len(),
    {
        let text = self.core.to_string();
        text.as_str().unicode_len()
    }

    /// An exact copy of this cell.
    pub fn duplicate(&self) -> (r: Self)
        ensures
            r == *self,
    {
        Tablecell { core: self.core.duplicate(), color: self.color }
    }

    /// The rendering of this cell: its value, wrapped in the color's
    /// escape code unless the color is black.
    pub fn to_string(&self) -> (r: String)
        ensures
            r@ == colored_text(self.color, core_view(self.core)),
    {
        let text = self.core.to_string();
        match self.color {
            OutputColor::Black => text,
            OutputColor::Red => {
                let mut s = String::from_str("\u{1b}[31m");
                s.append(text.as_str());
                s.append("\u{1b}[0m");
                s
            },
            OutputColor::Green => {
                let mut s = String::from_str("\u{1b}[32m");
                s.append(text.as_str());
                s.append("\u{1b}[0m");
                s
            },
            OutputColor::Yellow => {
                let mut s = String::from_str("\u{1b}[33m");
                s.append(text.as_str());
                s.append("\u{1b}[0m");
                s
            },
            OutputColor::Blue => {
                let mut s = String::from_str("\u{1b}[34m");
                s.append(text.as_str());
                s.append("\u{1b}[0m");
                s
            },
            OutputColor::White => {
                let mut s = String::from_str("\u{1b}[37m");
                s.append(text.as_str());
                s.append("\u{1b}[0m");
                s
            },
            OutputColor::Grey => {
                let mut s = String::from_str("\u{1b}[90m");
                s.append(text.as_str());
                s.append("\u{1b}[0m");
                s
            },
        }
    }

    /// The debugging rendering of this cell: the value with its type
    /// tag, then the color name in angle brackets.
    pub fn debug_string(&self) -> (r: String)
        ensures
            r@ == core_view(self.core) + core_tag(self.core) + "<"@ + color_name(self.color)
                + ">"@,
    {
        let mut s = self.core.debug_string();
        s.append("<");
        let name = self.color.to_string();
        s.append(name.as_str());
        s.append(">");
        s
    }
}

} // verus!
