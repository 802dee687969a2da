//! A table line: a vector of cells, parsed from one delimited text line.

use vstd::prelude::*;
use vstd::string::{StrSliceExecFns, StringExecFns};
use crate::setting::input::ForceType;
use crate::setting::output::OutputColor;
use crate::tablecell::{Tablecell, FloatSource, forced_model, colored_text};
use crate::tablecellcore::{CellSpec, FloatProbe, cell_is, auto_model, core_view, core_tag};
use crate::text::{split_of, split_str, trim_of, trim_str};

verus! {

/// The cell texts of one line: the pieces between separators, trimmed,
/// the empty ones dropped, starting at piece `k`.
pub open spec fn line_texts_from(pieces: Seq<Seq<char>>, k: int) -> Seq<Seq<char>>
    decreases pieces.len() - k,
{
    if k < 0 || k >= pieces.len() {
        Seq::<Seq<char>>::empty()
    } else if trim_of(pieces[k]).len() > 0 {
        seq![trim_of(pieces[k])] + line_texts_from(pieces, k + 1)
    } else {
        line_texts_from(pieces, k + 1)
    }
}

/// The cell texts of a line: trim the line, split it on the separator,
/// trim each piece, drop the empty ones.
pub open spec fn line_texts_of(s: Seq<char>, sep: Seq<char>) -> Seq<Seq<char>> {
    line_texts_from(split_of(trim_of(s), sep), 0)
}

/// An automatically inferred cell for the given text: black, and typed
/// by inference under some float observation.
pub open spec fn cell_auto_matches(c: Tablecell, text: Seq<char>) -> bool {
    c.color == OutputColor::Black && exists|p: FloatProbe| cell_is(c.core, auto_model(text, p))
}

/// A line of automatically inferred cells for the given texts.
pub open spec fn line_auto_matches(cells: Seq<Tablecell>, texts: Seq<Seq<char>>) -> bool {
    cells.len() == texts.len() && forall|i: int|
        0 <= i < cells.len() ==> cell_auto_matches(#[trigger] cells[i], texts[i])
}

/// A forced cell for the given text: black, and typed by the forced
/// conversion under some float observation.
pub open spec fn cell_forced_matches(c: Tablecell, text: Seq<char>, ft: ForceType) -> bool {
    c.color == OutputColor::Black && exists|p: FloatProbe|
        cell_is(c.core, forced_model(text, ft, p))
}

/// The first force type bound to column `i`, if any.
pub open spec fn find_force(l: Seq<(usize, ForceType)>, i: usize) -> Option<ForceType>
    decreases l.len(),
{
    if l.len() == 0 {
        None
    } else if l[0].0 == i {
        Some(l[0].1)
    } else {
        find_force(l.drop_first(), i)
    }
}

/// Looks up the first force type bound to line or column `i`.
pub fn lookup_force(l: &Vec<(usize, ForceType)>, i: usize) -> (r: Option<ForceType>)
    ensures
        r == find_force(l@, i),
{
    let mut pos: usize = 0;
    proof {
        assert(l@.skip(0) =~= l@);
    }
    while pos < l.len()
        invariant
            pos <= l@.len(),
            find_force(l@, i) == find_force(l@.skip(pos as int), i),
        decreases l@.len() - pos,
    {
        let q = l[pos];
        proof {
            assert(l@.skip(pos as int)[0] == l@[pos as int]);
            assert(l@.skip(pos as int).drop_first() =~= l@.skip(pos as int + 1));
        }
        if q.0 == i {
            return Some(q.1);
        }
        pos = pos + 1;
    }
    proof {
        assert(l@.skip(pos as int).len() == 0);
    }
    None
}

/// A sequence of space characters.
pub open spec fn spaces(n: int) -> Seq<char>
    decreases n,
{
    if n <= 0 {
        Seq::<char>::empty()
    } else {
        spaces(n - 1).push(' ')
    }
}

/// Builds a run of spaces.
fn spaces_string(n: usize) -> (r: String)
    ensures
        r@ == spaces(n as int),
{
    proof {
        reveal_strlit(" ");
    }
    let mut s = String::new();
    let mut i: usize = 0;
    while i < n
        invariant
            i <= n,
            s@ == spaces(i as int),
        decreases n - i,
    {
        s.append(" ");
        proof {
            reveal_strlit(" ");
            assert(" "@ =~= seq![' ']);
            assert(s@ =~= spaces(i as int + 1));
        }
        i = i + 1;
    }
    s
}

/// A line of a table.
#[derive(Clone)]
pub struct Tableline(pub Vec<Tablecell>);

/// The aligned rendering of the cells from position `k` on: each cell's
/// colored text, padding to its column width, and a grey separator.
pub open spec fn display_cells(cells: Seq<Tablecell>, widths: Seq<usize>, k: int) -> Seq<char>
    decreases cells.len() - k,
{
    if k < 0 || k >= cells.len() {
        Seq::<char>::empty()
    } else {
        colored_text(cells[k].color, core_view(cells[k].core)) + spaces(
            widths[k] - core_view(cells[k].core).len(),
        ) + " \u{1b}[90m|\u{1b}[0m "@ + display_cells(cells, widths, k + 1)
    }
}

/// The aligned rendering of the debug text of the cells from position
/// `k` on.
pub open spec fn debug_cells(cells: Seq<Tablecell>, widths: Seq<usize>, k: int) -> Seq<char>
    decreases cells.len() - k,
{
    if k < 0 || k >= cells.len() {
        Seq::<char>::empty()
    } else {
        let text = core_view(cells[k].core) + core_tag(cells[k].core) + "<"@ + crate::setting::output::color_name(
            cells[k].color,
        ) + ">"@;
        text + spaces(widths[k] - text.len()) + " \u{1b}[90m|\u{1b}[0m "@ + debug_cells(
            cells,
            widths,
            k + 1,
        )
    }
}

/// The empty columns after the cells: padding and a separator each.
pub open spec fn pad_columns(widths: Seq<usize>, from: int, to: int) -> Seq<char>
    decreases to - from,
{
    if from < 0 || from >= to {
        Seq::<char>::empty()
    } else {
        spaces(widths[from] as int) + " \u{1b}[90m|\u{1b}[0m "@ + pad_columns(widths, from + 1, to)
    }
}

/// The flat rendering of the cells from position `k` on, one separator
/// and one space after each.
pub open spec fn format_cells(cells: Seq<Tablecell>, sep: char, raw: bool, k: int) -> Seq<char>
    decreases cells.len() - k,
{
    if k < 0 || k >= cells.len() {
        Seq::<char>::empty()
    } else {
        let text = if raw {
            core_view(cells[k].core)
        } else {
            colored_text(cells[k].color, core_view(cells[k].core))
        };
        text + seq![sep] + seq![' '] + format_cells(cells, sep, raw, k + 1)
    }
}

/// The debug rendering of a line: `| `, then each cell's debug text
/// followed by ` | `.
pub open spec fn line_debug_text(cells: Seq<Tablecell>, k: int) -> Seq<char>
    decreases cells.len() - k,
{
    if k < 0 || k >= cells.len() {
        Seq::<char>::empty()
    } else {
        core_view(cells[k].core) + core_tag(cells[k].core) + "<"@ + crate::setting::output::color_name(
            cells[k].color,
        ) + ">"@ + " | "@ + line_debug_text(cells, k + 1)
    }
}

impl Tableline {
    /// An empty line.
    pub fn new() -> (r: Tableline)
        ensures
            r.0@.len() == 0,
    {
        Tableline(Vec::new())
    }

    /// A line made of the given cells.
    pub fn from_vec(cells: Vec<Tablecell>) -> (r: Tableline)
        ensures
            r.0@ == cells@,
    {
        Tableline(cells)
    }

    /// Parses a line: split on the separator, trim each cell, drop the
    /// empty ones, and type each remaining fragment automatically.
    pub fn from_string<F: FloatSource>(s: String, seperation: &str, src: &F) -> (r: Tableline)
        requires
            seperation@.len() >= 1,
        ensures
            line_auto_matches(r.0@, line_texts_of(s@, seperation@)),
    {
        let trimmed = trim_str(s.as_str());
        let pieces = split_str(trimmed, seperation);
        let ghost pseq = pieces.deep_view();
        let ghost texts = line_texts_from(pseq, 0);
        let mut cells: Vec<Tablecell> = Vec::new();
        let ghost done = Seq::<Seq<char>>::empty();
        let mut i: usize = 0;
        proof {
            assert(done + line_texts_from(pseq, 0) =~= line_texts_from(pseq, 0));
        }
        while i < pieces.len()
            invariant
                i <= pieces.len(),
                pseq == pieces.deep_view(),
                texts == line_texts_from(pseq, 0),
                cells@.len() == done.len(),
                forall|j: int|
                    0 <= j < cells@.len() ==> cell_auto_matches(#[trigger] cells@[j], done[j]),
                texts == done + line_texts_from(pseq, i as int),
            decreases pieces.len() - i,
        {
            let piece: &str = pieces[i].as_str();
            let ghost t = trim_of(pseq[i as int]);
            let cell_text = trim_str(piece);
            if cell_text.unicode_len() > 0 {
                let probe = src.probe(cell_text);
                let cell = Tablecell::auto_from(cell_text.to_owned(), &probe);
                proof {
                    assert(cell_is(cell.core, auto_model(t, probe)));
                    assert(exists|p: FloatProbe| cell_is(cell.core, auto_model(t, p)));
                }
                cells.push(cell);
                proof {
                    assert(line_texts_from(pseq, i as int) == seq![t] + line_texts_from(
                        pseq,
                        i as int + 1,
                    ));
                    assert(texts =~= done.push(t) + line_texts_from(pseq, i as int + 1));
                    assert(forall|j: int|
                        0 <= j < done.len() ==> #[trigger] done.push(t)[j] == done[j]);
                    assert(done.push(t)[done.len() as int] == t);
                }
                proof {
                    done = done.push(t);
                }
            } else {
                proof {
                    assert(line_texts_from(pseq, i as int) == line_texts_from(pseq, i as int + 1));
                }
            }
            i = i + 1;
        }
        proof {
            assert(line_texts_from(pseq, i as int).len() == 0);
            assert(texts =~= done);
        }
        Tableline(cells)
    }

    /// Parses a line like `from_string`, but forces every cell to a
    /// string.
    pub fn from_string_force(s: String, seperation: &str) -> (r: Tableline)
        requires
            seperation@.len() >= 1,
        ensures
            r.0@.len() == line_texts_of(s@, seperation@).len(),
            forall|j: int|
                0 <= j < r.0@.len() ==> cell_is(
                    (#[trigger] r.0@[j]).core,
                    CellSpec::Str(line_texts_of(s@, seperation@)[j]),
                ) && r.0@[j].color == OutputColor::Black,
    {
        let trimmed = trim_str(s.as_str());
        let pieces = split_str(trimmed, seperation);
        let ghost pseq = pieces.deep_view();
        let ghost texts = line_texts_from(pseq, 0);
        let mut cells: Vec<Tablecell> = Vec::new();
        let ghost done = Seq::<Seq<char>>::empty();
        let mut i: usize = 0;
        proof {
            assert(done + line_texts_from(pseq, 0) =~= line_texts_from(pseq, 0));
        }
        while i < pieces.len()
            invariant
                i <= pieces.len(),
                pseq == pieces.deep_view(),
                texts == line_texts_from(pseq, 0),
                cells@.len() == done.len(),
                forall|j: int|
                    0 <= j < cells@.len() ==> cell_is(
                        (#[trigger] cells@[j]).core,
                        CellSpec::Str(done[j]),
                    ) && cells@[j].color == OutputColor::Black,
                texts == done + line_texts_from(pseq, i as int),
            decreases pieces.len() - i,
        {
            let piece: &str = pieces[i].as_str();
            let ghost t = trim_of(pseq[i as int]);
            let cell_text = trim_str(piece);
            if cell_text.unicode_len() > 0 {
                let cell = Tablecell::force_as_string(cell_text.to_owned());
                cells.push(cell);
                proof {
                    assert(line_texts_from(pseq, i as int) == seq![t] + line_texts_from(
                        pseq,
                        i as int + 1,
                    ));
                    assert(texts =~= done.push(t) + line_texts_from(pseq, i as int + 1));
                    assert(forall|j: int|
                        0 <= j < done.len() ==> #[trigger] done.push(t)[j] == done[j]);
                    done = done.push(t);
                }
            } else {
                proof {
                    assert(line_texts_from(pseq, i as int) == line_texts_from(pseq, i as int + 1));
                }
            }
            i = i + 1;
        }
        proof {
            assert(line_texts_from(pseq, i as int).len() == 0);
            assert(texts =~= done);
        }
        Tableline(cells)
    }

    /// Parses a line like `from_string`, but forces every cell to the
    /// given type, falling back to inference where the conversion fails.
    pub fn from_string_with_force_parse_line<F: FloatSource>(
        s: String,
        seperation: &str,
        force_type: ForceType,
        src: &F,
    ) -> (r: Tableline)
        requires
            seperation@.len() >= 1,
        ensures
            r.0@.len() == line_texts_of(s@, seperation@).len(),
            forall|j: int|
                0 <= j < r.0@.len() ==> cell_forced_matches(
                    #[trigger] r.0@[j],
                    line_texts_of(s@, seperation@)[j],
                    force_type,
                ),
    {
        let trimmed = trim_str(s.as_str());
        let pieces = split_str(trimmed, seperation);
        let ghost pseq = pieces.deep_view();
        let ghost texts = line_texts_from(pseq, 0);
        let mut cells: Vec<Tablecell> = Vec::new();
        let ghost done = Seq::<Seq<char>>::empty();
        let mut i: usize = 0;
        proof {
            assert(done + line_texts_from(pseq, 0) =~= line_texts_from(pseq, 0));
        }
        while i < pieces.len()
            invariant
                i <= pieces.len(),
                pseq == pieces.deep_view(),
                texts == line_texts_from(pseq, 0),
                cells@.len() == done.len(),
                forall|j: int|
                    0 <= j < cells@.len() ==> cell_forced_matches(
                        #[trigger] cells@[j],
                        done[j],
                        force_type,
                    ),
                texts == done + line_texts_from(pseq, i as int),
            decreases pieces.len() - i,
        {
            let piece: &str = pieces[i].as_str();
            let ghost t = trim_of(pseq[i as int]);
            let cell_text = trim_str(piece);
            if cell_text.unicode_len() > 0 {
                let probe = src.probe(cell_text);
                let cell = Tablecell::from_type(cell_text.to_owned(), force_type, &probe);
                proof {
                    assert(cell_is(cell.core, forced_model(t, force_type, probe)));
                    assert(exists|p: FloatProbe| cell_is(cell.core, forced_model(t, force_type, p)));
                }
                cells.push(cell);
                proof {
                    assert(line_texts_from(pseq, i as int) == seq![t] + line_texts_from(
                        pseq,
                        i as int + 1,
                    ));
                    assert(texts =~= done.push(t) + line_texts_from(pseq, i as int + 1));
                    assert(forall|j: int|
                        0 <= j < done.len() ==> #[trigger] done.push(t)[j] == done[j]);
                    done = done.push(t);
                }
            } else {
                proof {
                    assert(line_texts_from(pseq, i as int) == line_texts_from(pseq, i as int + 1));
                }
            }
            i = i + 1;
        }
        proof {
            assert(line_texts_from(pseq, i as int).len() == 0);
            assert(texts =~= done);
        }
        Tableline(cells)
    }

    /// Parses a line like `from_string`, but forces each cell to the
    /// type its column is bound to, if any.
    pub fn from_string_with_force_parse_column<F: FloatSource>(
        s: String,
        seperation: &str,
        force: &Vec<(usize, ForceType)>,
        src: &F,
    ) -> (r: Tableline)
        requires
            seperation@.len() >= 1,
        ensures
            r.0@.len() == line_texts_of(s@, seperation@).len(),
            forall|j: int|
                0 <= j < r.0@.len() ==> (match find_force(force@, j as usize) {
                    Some(ft) => cell_forced_matches(
                        #[trigger] r.0@[j],
                        line_texts_of(s@, seperation@)[j],
                        ft,
                    ),
                    None => cell_auto_matches(r.0@[j], line_texts_of(s@, seperation@)[j]),
                }),
    {
        let trimmed = trim_str(s.as_str());
        let pieces = split_str(trimmed, seperation);
        let ghost pseq = pieces.deep_view();
        let ghost texts = line_texts_from(pseq, 0);
        let mut cells: Vec<Tablecell> = Vec::new();
        let ghost done = Seq::<Seq<char>>::empty();
        let mut i: usize = 0;
        proof {
            assert(done + line_texts_from(pseq, 0) =~= line_texts_from(pseq, 0));
        }
        while i < pieces.len()
            invariant
                i <= pieces.len(),
                pseq == pieces.deep_view(),
                texts == line_texts_from(pseq, 0),
                cells@.len() == done.len(),
                forall|j: int|
                    0 <= j < cells@.len() ==> (match find_force(force@, j as usize) {
                        Some(ft) => cell_forced_matches(#[trigger] cells@[j], done[j], ft),
                        None => cell_auto_matches(cells@[j], done[j]),
                    }),
                texts == done + line_texts_from(pseq, i as int),
            decreases pieces.len() - i,
        {
            let piece: &str = pieces[i].as_str();
            let ghost t = trim_of(pseq[i as int]);
            let cell_text = trim_str(piece);
            if cell_text.unicode_len() > 0 {
                let probe = src.probe(cell_text);
                let column = cells.len();
                let cell = match lookup_force(force, column) {
                    Some(ft) => Tablecell::from_type(cell_text.to_owned(), ft, &probe),
                    None => Tablecell::auto_from(cell_text.to_owned(), &probe),
                };
                proof {
                    match find_force(force@, column) {
                        Some(ft) => {
                            assert(cell_is(cell.core, forced_model(t, ft, probe)));
                            assert(exists|p: FloatProbe| cell_is(cell.core, forced_model(t, ft, p)));
                        },
                        None => {
                            assert(cell_is(cell.core, auto_model(t, probe)));
                            assert(exists|p: FloatProbe| cell_is(cell.core, auto_model(t, p)));
                        },
                    }
                }
                cells.push(cell);
                proof {
                    assert(line_texts_from(pseq, i as int) == seq![t] + line_texts_from(
                        pseq,
                        i as int + 1,
                    ));
                    assert(texts =~= done.push(t) + line_texts_from(pseq, i as int + 1));
                    assert(forall|j: int|
                        0 <= j < done.len() ==> #[trigger] done.push(t)[j] == done[j]);
                    done = done.push(t);
                }
            } else {
                proof {
                    assert(line_texts_from(pseq, i as int) == line_texts_from(pseq, i as int + 1));
                }
            }
            i = i + 1;
        }
        proof {
            assert(line_texts_from(pseq, i as int).len() == 0);
            assert(texts =~= done);
        }
        Tableline(cells)
    }

    /// The aligned display rendering: a leading grey separator, then
    /// each cell padded to its column's width, then the empty columns.
    /// Fails on an empty line or a width too small for its cell.
    pub fn to_string_display(&self, widths: &Vec<usize>) -> (r: Result<String, &'static str>)
        requires
            widths@.len() >= self.0@.len(),
        ensures
            r matches Ok(out) ==> self.0@.len() > 0 && (forall|k: int|
                0 <= k < self.0@.len() ==> core_view((#[trigger] self.0@[k]).core).len()
                    <= widths@[k]) && out@ == "\u{1b}[90m|\u{1b}[0m "@ + display_cells(
                self.0@,
                widths@,
                0,
            ) + pad_columns(widths@, self.0@.len() as int, widths@.len() as int),
            r matches Err(m) ==> (self.0@.len() == 0 || exists|k: int|
                0 <= k < self.0@.len() && core_view((#[trigger] self.0@[k]).core).len()
                    > widths@[k]),
    {
        if self.0.len() == 0 {
            return Err("Empty line");
        }
        let mut s = String::from_str("\u{1b}[90m|\u{1b}[0m ");
        let ghost prefix = "\u{1b}[90m|\u{1b}[0m "@;
        let mut i: usize = 0;
        while i < self.0.len()
            invariant
                i <= self.0@.len() <= widths@.len(),
                forall|k: int|
                    0 <= k < i ==> core_view((#[trigger] self.0@[k]).core).len() <= widths@[k],
                prefix + display_cells(self.0@, widths@, 0) == s@ + display_cells(
                    self.0@,
                    widths@,
                    i as int,
                ),
            decreases self.0@.len() - i,
        {
            let cell = &self.0[i];
            let clen = cell.len();
            if widths[i] < clen {
                return Err("Width too small");
            }
            let text = cell.to_string();
            s.append(text.as_str());
            let pad = spaces_string(widths[i] - clen);
            s.append(pad.as_str());
            s.append(" \u{1b}[90m|\u{1b}[0m ");
            proof {
                assert(display_cells(self.0@, widths@, i as int) == colored_text(
                    self.0@[i as int].color,
                    core_view(self.0@[i as int].core),
                ) + spaces(widths@[i as int] - core_view(self.0@[i as int].core).len())
                    + " \u{1b}[90m|\u{1b}[0m "@ + display_cells(self.0@, widths@, i as int + 1));
                assert(prefix + display_cells(self.0@, widths@, 0) =~= s@ + display_cells(
                    self.0@,
                    widths@,
                    i as int + 1,
                ));
            }
            i = i + 1;
        }
        let mut j: usize = self.0.len();
        proof {
            assert(display_cells(self.0@, widths@, i as int).len() == 0);
            assert(s@ =~= prefix + display_cells(self.0@, widths@, 0));
        }
        while j < widths.len()
            invariant
                self.0@.len() <= j <= widths@.len(),
                prefix + display_cells(self.0@, widths@, 0) + pad_columns(
                    widths@,
                    self.0@.len() as int,
                    widths@.len() as int,
                ) == s@ + pad_columns(widths@, j as int, widths@.len() as int),
            decreases widths@.len() - j,
        {
            let pad = spaces_string(widths[j]);
            s.append(pad.as_str());
            s.append(" \u{1b}[90m|\u{1b}[0m ");
            proof {
                assert(pad_columns(widths@, j as int, widths@.len() as int) == spaces(
                    widths@[j as int] as int,
                ) + " \u{1b}[90m|\u{1b}[0m "@ + pad_columns(
                    widths@,
                    j as int + 1,
                    widths@.len() as int,
                ));
                assert(prefix + display_cells(self.0@, widths@, 0) + pad_columns(
                    widths@,
                    self.0@.len() as int,
                    widths@.len() as int,
                ) =~= s@ + pad_columns(widths@, j as int + 1, widths@.len() as int));
            }
            j = j + 1;
        }
        proof {
            assert(pad_columns(widths@, j as int, widths@.len() as int).len() == 0);
            assert(s@ =~= prefix + display_cells(self.0@, widths@, 0) + pad_columns(
                widths@,
                self.0@.len() as int,
                widths@.len() as int,
            ));
        }
        Ok(s)
    }

    /// The aligned debug rendering: like the display rendering, but each
    /// cell shows its debug text. Fails on a width too small for its
    /// cell's debug text.
    pub fn to_string_debug(&self, widths: &Vec<usize>) -> (r: Result<String, &'static str>)
        requires
            widths@.len() >= self.0@.len(),
        ensures
            r matches Ok(out) ==> (forall|k: int|
                0 <= k < self.0@.len() ==> core_view((#[trigger] self.0@[k]).core).len()
                    + core_tag(self.0@[k].core).len() + 2 + crate::setting::output::color_name(
                    self.0@[k].color,
                ).len() <= widths@[k]) && out@ == "\u{1b}[90m|\u{1b}[0m "@ + debug_cells(
                self.0@,
                widths@,
                0,
            ) + pad_columns(widths@, self.0@.len() as int, widths@.len() as int),
            r is Err ==> exists|k: int|
                0 <= k < self.0@.len() && core_view((#[trigger] self.0@[k]).core).len()
                    + core_tag(self.0@[k].core).len() + 2 + crate::setting::output::color_name(
                    self.0@[k].color,
                ).len() > widths@[k],
    {
        let mut s = String::from_str("\u{1b}[90m|\u{1b}[0m ");
        let ghost prefix = "\u{1b}[90m|\u{1b}[0m "@;
        let mut i: usize = 0;
        while i < self.0.len()
            invariant
                i <= self.0@.len() <= widths@.len(),
                forall|k: int|
                    0 <= k < i ==> core_view((#[trigger] self.0@[k]).core).len() + core_tag(
                        self.0@[k].core,
                    ).len() + 2 + crate::setting::output::color_name(self.0@[k].color).len()
                        <= widths@[k],
                prefix + debug_cells(self.0@, widths@, 0) == s@ + debug_cells(
                    self.0@,
                    widths@,
                    i as int,
                ),
            decreases self.0@.len() - i,
        {
            let cell = &self.0[i];
            let text = cell.debug_string();
            let tlen = text.as_str().unicode_len();
            proof {
                reveal_strlit("<");
                reveal_strlit(">");
                assert(text@.len() == core_view(self.0@[i as int].core).len() + core_tag(
                    self.0@[i as int].core,
                ).len() + 2 + crate::setting::output::color_name(self.0@[i as int].color).len());
            }
            if widths[i] < tlen {
                return Err("Width too small");
            }
            s.append(text.as_str());
            let pad = spaces_string(widths[i] - tlen);
            s.append(pad.as_str());
            s.append(" \u{1b}[90m|\u{1b}[0m ");
            proof {
                assert(debug_cells(self.0@, widths@, i as int) == text@ + spaces(
                    widths@[i as int] - text@.len(),
                ) + " \u{1b}[90m|\u{1b}[0m "@ + debug_cells(self.0@, widths@, i as int + 1));
                assert(prefix + debug_cells(self.0@, widths@, 0) =~= s@ + debug_cells(
                    self.0@,
                    widths@,
                    i as int + 1,
                ));
            }
            i = i + 1;
        }
        let mut j: usize = self.0.len();
        proof {
            assert(debug_cells(self.0@, widths@, i as int).len() == 0);
            assert(s@ =~= prefix + debug_cells(self.0@, widths@, 0));
        }
        while j < widths.len()
            invariant
                self.0@.len() <= j <= widths@.len(),
                prefix + debug_cells(self.0@, widths@, 0) + pad_columns(
                    widths@,
                    self.0@.len() as int,
                    widths@.len() as int,
                ) == s@ + pad_columns(widths@, j as int, widths@.len() as int),
            decreases widths@.len() - j,
        {
            let pad = spaces_string(widths[j]);
            s.append(pad.as_str());
            s.append(" \u{1b}[90m|\u{1b}[0m ");
            proof {
                assert(pad_columns(widths@, j as int, widths@.len() as int) == spaces(
                    widths@[j as int] as int,
                ) + " \u{1b}[90m|\u{1b}[0m "@ + pad_columns(
                    widths@,
                    j as int + 1,
                    widths@.len() as int,
                ));
                assert(prefix + debug_cells(self.0@, widths@, 0) + pad_columns(
                    widths@,
                    self.0@.len() as int,
                    widths@.len() as int,
                ) =~= s@ + pad_columns(widths@, j as int + 1, widths@.len() as int));
            }
            j = j + 1;
        }
        proof {
            assert(pad_columns(widths@, j as int, widths@.len() as int).len() == 0);
            assert(s@ =~= prefix + debug_cells(self.0@, widths@, 0) + pad_columns(
                widths@,
                self.0@.len() as int,
                widths@.len() as int,
            ));
        }
        Ok(s)
    }

    /// The flat rendering with the given separator: each cell's colored
    /// text, the separator, a space.
    pub fn to_string_format(&self, seperation: char) -> (r: String)
        ensures
            r@ == format_cells(self.0@, seperation, false, 0),
    {
        self.format_inner(seperation, false)
    }

    /// The flat rendering without color information.
    pub fn to_string_raw(&self, seperation: char) -> (r: String)
        ensures
            r@ == format_cells(self.0@, seperation, true, 0),
    {
        self.format_inner(seperation, true)
    }

    /// Shared body of the flat renderings.
    fn format_inner(&self, seperation: char, raw: bool) -> (r: String)
        ensures
            r@ == format_cells(self.0@, seperation, raw, 0),
    {
        let mut s = String::new();
        let mut i: usize = 0;
        while i < self.0.len()
            invariant
                i <= self.0@.len(),
                format_cells(self.0@, seperation, raw, 0) == s@ + format_cells(
                    self.0@,
                    seperation,
                    raw,
                    i as int,
                ),
            decreases self.0@.len() - i,
        {
            let cell = &self.0[i];
            let text = if raw {
                cell.core.to_string()
            } else {
                cell.to_string()
            };
            s.append(text.as_str());
            crate::text::push_char(&mut s, seperation);
            s.append(" ");
            proof {
                reveal_strlit(" ");
                assert(format_cells(self.0@, seperation, raw, 0) =~= s@ + format_cells(
                    self.0@,
                    seperation,
                    raw,
                    i as int + 1,
                ));
            }
            i = i + 1;
        }
        proof {
            assert(format_cells(self.0@, seperation, raw, i as int).len() == 0);
            assert(format_cells(self.0@, seperation, raw, 0) =~= s@);
        }
        s
    }

    /// The debug rendering of the whole line: `| `, then each cell's
    /// debug text followed by ` | `.
    pub fn debug_string(&self) -> (r: String)
        ensures
            r@ == "| "@ + line_debug_text(self.0@, 0),
    {
        let mut s = String::from_str("| ");
        let ghost prefix = "| "@;
        let mut i: usize = 0;
        while i < self.0.len()
            invariant
                i <= self.0@.len(),
                prefix + line_debug_text(self.0@, 0) == s@ + line_debug_text(self.0@, i as int),
            decreases self.0@.len() - i,
        {
            let cell = &self.0[i];
            let text = cell.debug_string();
            s.append(text.as_str());
            s.append(" | ");
            proof {
                assert(prefix + line_debug_text(self.0@, 0) =~= s@ + line_debug_text(
                    self.0@,
                    i as int + 1,
                ));
            }
            i = i + 1;
        }
        proof {
            assert(line_debug_text(self.0@, i as int).len() == 0);
            assert(s@ =~= prefix + line_debug_text(self.0@, 0));
        }
        s
    }

    /// Appends one cell.
    pub fn push_cell(&mut self, cell: Tablecell)
        ensures
            final(self).0@ == old(self).0@.push(cell),
    {
        self.0.push(cell);
    }

    /// Removes and yields the last cell, if any.
    pub fn pop_cell(&mut self) -> (r: Option<Tablecell>)
        ensures
            old(self).0@.len() == 0 ==> final(self).0@ == old(self).0@ && r is None,
            old(self).0@.len() > 0 ==> final(self).0@ == old(self).0@.drop_last() && r == Some(
                old(self).0@.last(),
            ),
    {
        self.0.pop()
    }

    /// Inserts a cell at the index; fails when the index is past the
    /// end.
    pub fn insert_cell(&mut self, index: usize, cell: Tablecell) -> (r: Result<(), String>)
        ensures
            index <= old(self).0@.len() ==> r is Ok && final(self).0@ == old(self).0@.insert(
                index as int,
                cell,
            ),
            index > old(self).0@.len() ==> r is Err && final(self).0@ == old(self).0@,
    {
        if index > self.0.len() {
            return Err(String::from_str("Index out of range"));
        }
        self.0.insert(index, cell);
        Ok(())
    }

    /// Removes the cell at the index; fails when there is none.
    pub fn remove_cell(&mut self, index: usize) -> (r: Result<Tablecell, String>)
        ensures
            index < old(self).0@.len() ==> (r matches Ok(c) && c == old(self).0@[index as int]
                && final(self).0@ == old(self).0@.remove(index as int)),
            index >= old(self).0@.len() ==> r is Err && final(self).0@ == old(self).0@,
    {
        if index >= self.0.len() {
            return Err(String::from_str("Index out of range"));
        }
        Ok(self.0.remove(index))
    }

    /// Appends all the given cells, in order.
    pub fn push_cells(&mut self, cells: Vec<Tablecell>)
        ensures
            final(self).0@ == old(self).0@ + cells@,
    {
        let mut rest = cells;
        self.0.append(&mut rest);
    }

    /// Removes the cells in the inclusive index range; fails when either
    /// end is out of range.
    pub fn remove_cells(&mut self, start: usize, end: usize) -> (r: Result<(), String>)
        ensures
            (start >= old(self).0@.len() || end >= old(self).0@.len()) ==> r is Err
                && final(self).0@ == old(self).0@,
            (start < old(self).0@.len() && end < old(self).0@.len() && start <= end) ==> r is Ok
                && final(self).0@ == old(self).0@.subrange(0, start as int) + old(self).0@.subrange(
                end + 1,
                old(self).0@.len() as int,
            ),
            (start < old(self).0@.len() && end < old(self).0@.len() && start > end) ==> r is Ok
                && final(self).0@ == old(self).0@,
    {
        if start >= self.0.len() || end >= self.0.len() {
            return Err(String::from_str("Index out of range"));
        }
        if start > end {
            proof {
                assert(self.0@ =~= old(self).0@);
            }
            return Ok(());
        }
        let mut k = start;
        proof {
            assert(self.0@ =~= old(self).0@.subrange(0, start as int) + old(self).0@.subrange(
                start as int,
                old(self).0@.len() as int,
            ));
        }
        while k <= end
            invariant
                start <= k,
                k <= end + 1,
                end < old(self).0@.len(),
                old(self).0@.len() <= usize::MAX,
                self.0@ == old(self).0@.subrange(0, start as int) + old(self).0@.subrange(
                    k as int,
                    old(self).0@.len() as int,
                ),
            decreases end + 1 - k,
        {
            proof {
                assert(self.0@.len() > start);
            }
            let _ = self.0.remove(start);
            proof {
                assert(self.0@ =~= old(self).0@.subrange(0, start as int) + old(self).0@.subrange(
                    k + 1,
                    old(self).0@.len() as int,
                ));
            }
            k = k + 1;
        }
        proof {
            if start > end {
                assert(self.0@ =~= old(self).0@);
            }
        }
        Ok(())
    }

    /// Inserts the given cells at the index, in order; fails when the
    /// index is past the end.
    pub fn insert_cells(&mut self, index: usize, cells: Vec<Tablecell>) -> (r: Result<(), String>)
        ensures
            index <= old(self).0@.len() ==> r is Ok && final(self).0@ == old(self).0@.subrange(
                0,
                index as int,
            ) + cells@ + old(self).0@.subrange(index as int, old(self).0@.len() as int),
            index > old(self).0@.len() ==> r is Err && final(self).0@ == old(self).0@,
    {
        if index > self.0.len() {
            return Err(String::from_str("Index out of range"));
        }
        let mut rest = cells;
        let ghost cseq = rest@;
        let total = rest.len();
        let mut k: usize = 0;
        proof {
            assert(cseq.len() == total as int);
            assert(self.0@ =~= old(self).0@.subrange(0, index as int) + cseq.subrange(0, 0)
                + old(self).0@.subrange(index as int, old(self).0@.len() as int));
        }
        while rest.len() > 0
            invariant
                k + rest@.len() == cseq.len(),
                cseq.len() <= usize::MAX,
                index <= old(self).0@.len(),
                index + k <= self.0@.len(),
                self.0@.len() == old(self).0@.len() + k,
                rest@ == cseq.subrange(k as int, cseq.len() as int),
                self.0@ == old(self).0@.subrange(0, index as int) + cseq.subrange(0, k as int)
                    + old(self).0@.subrange(index as int, old(self).0@.len() as int),
            decreases rest@.len(),
        {
            let c = rest.remove(0);
            proof {
                assert(rest@ =~= cseq.subrange(k + 1, cseq.len() as int));
                assert(c == cseq[k as int]);
            }
            let cur = self.0.len();
            proof {
                assert(index + k <= cur);
            }
            let ghost prev = self.0@;
            self.0.insert(index + k, c);
            proof {
                assert(self.0@ =~= prev.subrange(0, index + k as int).push(c) + prev.subrange(
                    index + k as int,
                    prev.len() as int,
                ));
                assert(prev.subrange(0, index + k as int) =~= old(self).0@.subrange(
                    0,
                    index as int,
                ) + cseq.subrange(0, k as int));
                assert(prev.subrange(index + k as int, prev.len() as int) =~= old(
                    self,
                ).0@.subrange(index as int, old(self).0@.len() as int));
                assert(self.0@ =~= old(self).0@.subrange(0, index as int) + cseq.subrange(
                    0,
                    k + 1,
                ) + old(self).0@.subrange(index as int, old(self).0@.len() as int));
            }
            k = k + 1;
        }
        proof {
            assert(cseq.subrange(0, k as int) =~= cseq);
        }
        Ok(())
    }

    /// The number of cells.
    pub fn len(&self) -> (r: usize)
        ensures
            r == self.0@.len(),
    {
        self.0.len()
    }

    /// The cell at the index, if any.
    pub fn get_cell(&self, index: usize) -> (r: Option<&Tablecell>)
        ensures
            index < self.0@.len() ==> (r matches Some(c) && *c == self.0@[index as int]),
            index >= self.0@.len() ==> r is None,
    {
        if index < self.0.len() {
            Some(&self.0[index])
        } else {
            None
        }
    }

    /// Repaints the cell at the index; does nothing when there is none.
    pub fn set_cell_color(&mut self, index: usize, color: OutputColor)
        ensures
            final(self).0@.len() == old(self).0@.len(),
            forall|j: int|
                0 <= j < old(self).0@.len() && j != index ==> #[trigger] final(self).0@[j]
                    == old(self).0@[j],
            index < old(self).0@.len() ==> final(self).0@[index as int].core
                == old(self).0@[index as int].core && final(self).0@[index as int].color == color,
    {
        if index < self.0.len() {
            let cell = &mut self.0[index];
            cell.set_color(color);
        }
    }

    /// Paints every cell of the line.
    pub fn set_all_colors(&mut self, color: OutputColor)
        ensures
            final(self).0@.len() == old(self).0@.len(),
            forall|j: int|
                0 <= j < old(self).0@.len() ==> (#[trigger] final(self).0@[j]).core == old(
                    self,
                ).0@[j].core && final(self).0@[j].color == color,
    {
        let n = self.0.len();
        let mut j: usize = 0;
        while j < n
            invariant
                j <= n,
                n == self.0@.len(),
                self.0@.len() == old(self).0@.len(),
                forall|m: int| j <= m < n ==> #[trigger] self.0@[m] == old(self).0@[m],
                forall|m: int|
                    0 <= m < j ==> (#[trigger] self.0@[m]).core == old(self).0@[m].core
                        && self.0@[m].color == color,
            decreases n - j,
        {
            self.set_cell_color(j, color);
            j = j + 1;
        }
    }

    /// The cells in the inclusive index range; nothing when either end
    /// is out of range.
    pub fn get_cells(&self, start: usize, end: usize) -> (r: Option<&[Tablecell]>)
        ensures
            (start >= self.0@.len() || end >= self.0@.len()) ==> r is None,
            (start < self.0@.len() && end < self.0@.len() && start <= end) ==> (r matches Some(c)
                && c@ == self.0@.subrange(start as int, end + 1)),
            (start < self.0@.len() && end < self.0@.len() && start > end) ==> (r matches Some(c)
                && c@.len() == 0),
    {
        if start >= self.0.len() || end >= self.0.len() {
            return None;
        }
        if start > end {
            return Some(vstd::slice::slice_subrange(self.0.as_slice(), start, start));
        }
        Some(vstd::slice::slice_subrange(self.0.as_slice(), start, end + 1))
    }
}

} // verus!
