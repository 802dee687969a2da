//! A table: a vector of lines, parsed from delimited text.

use vstd::prelude::*;
use vstd::string::{StrSliceExecFns, StringExecFns};
use crate::setting::LineColumn;
use crate::setting::input::ForceType;
use crate::setting::output::OutputColor;
use crate::tablecell::{Tablecell, FloatSource};
use crate::tableline::{
    Tableline, line_texts_of, line_auto_matches, cell_forced_matches, cell_auto_matches,
    find_force, lookup_force,
};
use crate::text::{split_of, split_str, seq_contains_char, contains_char};

verus! {

/// The pieces of a split, joined back together from piece `k` on.
pub open spec fn join_pieces(parts: Seq<Seq<char>>, k: int) -> Seq<char>
    decreases parts.len() - k,
{
    if k < 0 || k >= parts.len() {
        Seq::<char>::empty()
    } else {
        parts[k] + join_pieces(parts, k + 1)
    }
}

/// The text with every newline removed.
pub open spec fn strip_newlines(s: Seq<char>) -> Seq<char> {
    join_pieces(split_of(s, seq!['\n']), 0)
}

/// The text a table is parsed from: unchanged when the line separator
/// holds a newline, otherwise with every newline removed first.
pub open spec fn preprocessed(s: Seq<char>, end_line: Seq<char>) -> Seq<char> {
    if seq_contains_char(end_line, '\n') {
        s
    } else {
        strip_newlines(s)
    }
}

/// The kept lines of a table: for each piece between line separators,
/// its index and its cell texts; pieces without cells are dropped.
pub open spec fn kept_lines(pieces: Seq<Seq<char>>, sep: Seq<char>, k: int) -> Seq<
    (int, Seq<Seq<char>>),
>
    decreases pieces.len() - k,
{
    if k < 0 || k >= pieces.len() {
        Seq::<(int, Seq<Seq<char>>)>::empty()
    } else if line_texts_of(pieces[k], sep).len() > 0 {
        seq![(k, line_texts_of(pieces[k], sep))] + kept_lines(pieces, sep, k + 1)
    } else {
        kept_lines(pieces, sep, k + 1)
    }
}

/// Removes every newline from the text.
fn remove_newlines(s: &str) -> (r: String)
    ensures
        r@ == strip_newlines(s@),
{
    proof {
        reveal_strlit("\n");
        assert("\n"@ =~= seq!['\n']);
    }
    let pieces = split_str(s, "\n");
    let ghost pseq = pieces.deep_view();
    let mut out = String::new();
    let mut i: usize = 0;
    proof {
        assert(out@ + join_pieces(pseq, 0) =~= join_pieces(pseq, 0));
    }
    while i < pieces.len()
        invariant
            i <= pieces.len(),
            pseq == pieces.deep_view(),
            join_pieces(pseq, 0) == out@ + join_pieces(pseq, i as int),
        decreases pieces.len() - i,
    {
        out.append(pieces[i].as_str());
        proof {
            assert(join_pieces(pseq, 0) =~= out@ + join_pieces(pseq, i as int + 1));
        }
        i = i + 1;
    }
    proof {
        assert(join_pieces(pseq, i as int).len() == 0);
        assert(join_pieces(pseq, 0) =~= out@);
    }
    out
}

/// A dashed rule of the given width.
pub open spec fn dashes(n: int) -> Seq<char>
    decreases n,
{
    if n <= 0 {
        Seq::<char>::empty()
    } else {
        dashes(n - 1).push('-')
    }
}

/// The grey opening of one column's rule: a plus, then the column width
/// plus two dashes, not closed by a plus.
pub fn generate_parallel_line(width: usize) -> (r: String)
    requires
        width <= usize::MAX - 2,
    ensures
        r@ == "\u{1b}[90m+"@ + dashes(width + 2),
{
    proof {
        reveal_strlit("-");
    }
    let mut s = String::from_str("\u{1b}[90m+");
    let ghost prefix = "\u{1b}[90m+"@;
    let n = width + 2;
    let mut i: usize = 0;
    while i < n
        invariant
            i <= n,
            s@ == prefix + dashes(i as int),
        decreases n - i,
    {
        s.append("-");
        proof {
            reveal_strlit("-");
            assert("-"@ =~= seq!['-']);
            assert(s@ =~= prefix + dashes(i as int + 1));
        }
        i = i + 1;
    }
    s
}

/// The cells a column selection picks from one line, in selection
/// order; columns the line does not have are skipped.
pub open spec fn pick_cells(line: Seq<Tablecell>, cols: Seq<usize>, k: int) -> Seq<Tablecell>
    decreases cols.len() - k,
{
    if k < 0 || k >= cols.len() {
        Seq::<Tablecell>::empty()
    } else if cols[k] < line.len() {
        seq![line[cols[k] as int]] + pick_cells(line, cols, k + 1)
    } else {
        pick_cells(line, cols, k + 1)
    }
}

/// The rows a line selection picks from a table, each reduced to its
/// selected columns; lines the table does not have are skipped.
pub open spec fn pick_lines(
    lines: Seq<Tableline>,
    sel: Seq<usize>,
    cols: Seq<usize>,
    k: int,
) -> Seq<Seq<Tablecell>>
    decreases sel.len() - k,
{
    if k < 0 || k >= sel.len() {
        Seq::<Seq<Tablecell>>::empty()
    } else if sel[k] < lines.len() {
        seq![pick_cells(lines[sel[k] as int].0@, cols, 0)] + pick_lines(lines, sel, cols, k + 1)
    } else {
        pick_lines(lines, sel, cols, k + 1)
    }
}

/// A table.
pub struct Table(pub Vec<Tableline>);

impl Table {
    /// An empty table.
    pub fn new() -> (r: Table)
        ensures
            r.0@.len() == 0,
    {
        Table(Vec::new())
    }

    /// A table made of the given lines.
    pub fn from_vec(lines: Vec<Tableline>) -> (r: Table)
        ensures
            r.0@ == lines@,
    {
        Table(lines)
    }

    /// Parses text to a table: remove newlines unless they separate
    /// lines, split on the line separator, parse each piece as a line of
    /// automatically typed cells, and drop the lines without cells.
    pub fn from_string<F: FloatSource>(s: String, seperation: &str, end_line: &str, src: &F) -> (r:
        Table)
        requires
            seperation@.len() >= 1,
            end_line@.len() >= 1,
        ensures
            ({
                let kept = kept_lines(
                    split_of(preprocessed(s@, end_line@), end_line@),
                    seperation@,
                    0,
                );
                r.0@.len() == kept.len() && forall|i: int|
                    0 <= i < kept.len() ==> line_auto_matches(
                        (#[trigger] r.0@[i]).0@,
                        kept[i].1,
                    )
            }),
    {
        let text: String = if contains_char(end_line, '\n') {
            s
        } else {
            remove_newlines(s.as_str())
        };
        let pieces = split_str(text.as_str(), end_line);
        let ghost pseq = pieces.deep_view();
        let ghost kept = kept_lines(pseq, seperation@, 0);
        let mut lines: Vec<Tableline> = Vec::new();
        let ghost done = Seq::<(int, Seq<Seq<char>>)>::empty();
        let mut i: usize = 0;
        proof {
            assert(done + kept_lines(pseq, seperation@, 0) =~= kept_lines(pseq, seperation@, 0));
        }
        while i < pieces.len()
            invariant
                seperation@.len() >= 1,
                i <= pieces.len(),
                pseq == pieces.deep_view(),
                kept == kept_lines(pseq, seperation@, 0),
                lines@.len() == done.len(),
                forall|j: int|
                    0 <= j < lines@.len() ==> line_auto_matches(
                        (#[trigger] lines@[j]).0@,
                        done[j].1,
                    ),
                kept == done + kept_lines(pseq, seperation@, i as int),
            decreases pieces.len() - i,
        {
            let piece: &str = pieces[i].as_str();
            let ghost t = pseq[i as int];
            let line = Tableline::from_string(piece.to_owned(), seperation, src);
            if line.len() > 0 {
                proof {
                    assert(kept_lines(pseq, seperation@, i as int) == seq![
                        (i as int, line_texts_of(t, seperation@)),
                    ] + kept_lines(pseq, seperation@, i as int + 1));
                    assert(kept =~= done.push((i as int, line_texts_of(t, seperation@)))
                        + kept_lines(pseq, seperation@, i as int + 1));
                    assert(forall|j: int|
                        0 <= j < done.len() ==> #[trigger] done.push(
                            (i as int, line_texts_of(t, seperation@)),
                        )[j] == done[j]);
                    done = done.push((i as int, line_texts_of(t, seperation@)));
                }
                lines.push(line);
            } else {
                proof {
                    assert(kept_lines(pseq, seperation@, i as int) == kept_lines(
                        pseq,
                        seperation@,
                        i as int + 1,
                    ));
                }
            }
            i = i + 1;
        }
        proof {
            assert(kept_lines(pseq, seperation@, i as int).len() == 0);
            assert(kept =~= done);
        }
        Table(lines)
    }

    /// Parses text to a table with every cell forced to a string; lines
    /// without cells are kept.
    pub fn from_string_force(s: String, seperation: &str, end_line: &str) -> (r: Table)
        requires
            seperation@.len() >= 1,
            end_line@.len() >= 1,
        ensures
            ({
                let pieces = split_of(preprocessed(s@, end_line@), end_line@);
                r.0@.len() == pieces.len() && forall|i: int|
                    0 <= i < pieces.len() ==> {
                        let texts = line_texts_of(pieces[i], seperation@);
                        (#[trigger] r.0@[i]).0@.len() == texts.len() && forall|j: int|
                            0 <= j < texts.len() ==> crate::tablecellcore::cell_is(
                                (#[trigger] r.0@[i].0@[j]).core,
                                crate::tablecellcore::CellSpec::Str(texts[j]),
                            ) && r.0@[i].0@[j].color == OutputColor::Black
                    }
            }),
    {
        let text: String = if contains_char(end_line, '\n') {
            s
        } else {
            remove_newlines(s.as_str())
        };
        let pieces = split_str(text.as_str(), end_line);
        let ghost pseq = pieces.deep_view();
        let mut lines: Vec<Tableline> = Vec::new();
        let mut i: usize = 0;
        while i < pieces.len()
            invariant
                seperation@.len() >= 1,
                i <= pieces.len(),
                pseq == pieces.deep_view(),
                lines@.len() == i,
                forall|k: int|
                    0 <= k < i ==> {
                        let texts = line_texts_of(pseq[k], seperation@);
                        (#[trigger] lines@[k]).0@.len() == texts.len() && forall|j: int|
                            0 <= j < texts.len() ==> crate::tablecellcore::cell_is(
                                (#[trigger] lines@[k].0@[j]).core,
                                crate::tablecellcore::CellSpec::Str(texts[j]),
                            ) && lines@[k].0@[j].color == OutputColor::Black
                    },
            decreases pieces.len() - i,
        {
            let piece: &str = pieces[i].as_str();
            let line = Tableline::from_string_force(piece.to_owned(), seperation);
            lines.push(line);
            i = i + 1;
        }
        Table(lines)
    }

    /// Parses text to a table under a force-parse rule: with a line
    /// rule, each bound line is forced to its type; with a column rule,
    /// each bound column of every line is. Lines without cells are
    /// dropped.
    pub fn from_string_with_force_parse<F: FloatSource>(
        s: String,
        seperation: &str,
        end_line: &str,
        force: &(Vec<(usize, ForceType)>, LineColumn),
        src: &F,
    ) -> (r: Table)
        requires
            seperation@.len() >= 1,
            end_line@.len() >= 1,
        ensures
            ({
                let kept = kept_lines(
                    split_of(preprocessed(s@, end_line@), end_line@),
                    seperation@,
                    0,
                );
                r.0@.len() == kept.len() && forall|i: int|
                    0 <= i < kept.len() ==> {
                        let texts = (#[trigger] kept[i]).1;
                        let cells = r.0@[i].0@;
                        cells.len() == texts.len() && (match force.1 {
                            LineColumn::Line => (match find_force(force.0@, kept[i].0 as usize) {
                                Some(ft) => forall|j: int|
                                    0 <= j < texts.len() ==> cell_forced_matches(
                                        #[trigger] cells[j],
                                        texts[j],
                                        ft,
                                    ),
                                None => forall|j: int|
                                    0 <= j < texts.len() ==> cell_auto_matches(
                                        #[trigger] cells[j],
                                        texts[j],
                                    ),
                            }),
                            LineColumn::Column => forall|j: int|
                                0 <= j < texts.len() ==> (match find_force(
                                    force.0@,
                                    j as usize,
                                ) {
                                    Some(ft) => cell_forced_matches(
                                        #[trigger] cells[j],
                                        texts[j],
                                        ft,
                                    ),
                                    None => cell_auto_matches(cells[j], texts[j]),
                                }),
                        })
                    }
            }),
    {
        let text: String = if contains_char(end_line, '\n') {
            s
        } else {
            remove_newlines(s.as_str())
        };
        let pieces = split_str(text.as_str(), end_line);
        let ghost pseq = pieces.deep_view();
        let ghost kept = kept_lines(pseq, seperation@, 0);
        let mut lines: Vec<Tableline> = Vec::new();
        let ghost done = Seq::<(int, Seq<Seq<char>>)>::empty();
        let mut i: usize = 0;
        proof {
            assert(done + kept_lines(pseq, seperation@, 0) =~= kept_lines(pseq, seperation@, 0));
        }
        while i < pieces.len()
            invariant
                seperation@.len() >= 1,
                i <= pieces.len(),
                pseq == pieces.deep_view(),
                kept == kept_lines(pseq, seperation@, 0),
                lines@.len() == done.len(),
                forall|m: int|
                    0 <= m < lines@.len() ==> {
                        let texts = (#[trigger] done[m]).1;
                        let cells = lines@[m].0@;
                        cells.len() == texts.len() && (match force.1 {
                            LineColumn::Line => (match find_force(force.0@, done[m].0 as usize) {
                                Some(ft) => forall|j: int|
                                    0 <= j < texts.len() ==> cell_forced_matches(
                                        #[trigger] cells[j],
                                        texts[j],
                                        ft,
                                    ),
                                None => forall|j: int|
                                    0 <= j < texts.len() ==> cell_auto_matches(
                                        #[trigger] cells[j],
                                        texts[j],
                                    ),
                            }),
                            LineColumn::Column => forall|j: int|
                                0 <= j < texts.len() ==> (match find_force(
                                    force.0@,
                                    j as usize,
                                ) {
                                    Some(ft) => cell_forced_matches(
                                        #[trigger] cells[j],
                                        texts[j],
                                        ft,
                                    ),
                                    None => cell_auto_matches(cells[j], texts[j]),
                                }),
                        })
                    },
                kept == done + kept_lines(pseq, seperation@, i as int),
            decreases pieces.len() - i,
        {
            let piece: &str = pieces[i].as_str();
            let ghost t = pseq[i as int];
            let line: Tableline = match force.1 {
                LineColumn::Line => match lookup_force(&force.0, i) {
                    Some(ft) => Tableline::from_string_with_force_parse_line(
                        piece.to_owned(),
                        seperation,
                        ft,
                        src,
                    ),
                    None => Tableline::from_string(piece.to_owned(), seperation, src),
                },
                LineColumn::Column => Tableline::from_string_with_force_parse_column(
                    piece.to_owned(),
                    seperation,
                    &force.0,
                    src,
                ),
            };
            if line.len() > 0 {
                proof {
                    assert(kept_lines(pseq, seperation@, i as int) == seq![
                        (i as int, line_texts_of(t, seperation@)),
                    ] + kept_lines(pseq, seperation@, i as int + 1));
                    assert(kept =~= done.push((i as int, line_texts_of(t, seperation@)))
                        + kept_lines(pseq, seperation@, i as int + 1));
                    assert(forall|m: int|
                        0 <= m < done.len() ==> #[trigger] done.push(
                            (i as int, line_texts_of(t, seperation@)),
                        )[m] == done[m]);
                    done = done.push((i as int, line_texts_of(t, seperation@)));
                }
                lines.push(line);
            } else {
                proof {
                    assert(kept_lines(pseq, seperation@, i as int) == kept_lines(
                        pseq,
                        seperation@,
                        i as int + 1,
                    ));
                }
            }
            i = i + 1;
        }
        proof {
            assert(kept_lines(pseq, seperation@, i as int).len() == 0);
            assert(kept =~= done);
        }
        Table(lines)
    }

    /// Appends one line.
    pub fn push_line(&mut self, line: Tableline)
        ensures
            final(self).0@ == old(self).0@.push(line),
    {
        self.0.push(line);
    }

    /// Removes and yields the last line, if any.
    pub fn pop_line(&mut self) -> (r: Option<Tableline>)
        ensures
            old(self).0@.len() == 0 ==> final(self).0@ == old(self).0@ && r is None,
            old(self).0@.len() > 0 ==> final(self).0@ == old(self).0@.drop_last() && r == Some(
                old(self).0@.last(),
            ),
    {
        self.0.pop()
    }

    /// Inserts a line at the index; fails when the index is past the
    /// end.
    pub fn insert_line(&mut self, index: usize, line: Tableline) -> (r: Result<(), String>)
        ensures
            index <= old(self).0@.len() ==> r is Ok && final(self).0@ == old(self).0@.insert(
                index as int,
                line,
            ),
            index > old(self).0@.len() ==> r is Err && final(self).0@ == old(self).0@,
    {
        if index > self.0.len() {
            return Err(String::from_str("Index out of range"));
        }
        self.0.insert(index, line);
        Ok(())
    }

    /// Removes the line at the index; fails when there is none.
    pub fn remove_line(&mut self, index: usize) -> (r: Result<Tableline, String>)
        ensures
            index < old(self).0@.len() ==> (r matches Ok(l) && l == old(self).0@[index as int]
                && final(self).0@ == old(self).0@.remove(index as int)),
            index >= old(self).0@.len() ==> r is Err && final(self).0@ == old(self).0@,
    {
        if index >= self.0.len() {
            return Err(String::from_str("Index out of range"));
        }
        Ok(self.0.remove(index))
    }

    /// Appends all the given lines, in order.
    pub fn push_lines(&mut self, lines: Vec<Tableline>)
        ensures
            final(self).0@ == old(self).0@ + lines@,
    {
        let mut rest = lines;
        self.0.append(&mut rest);
    }

    /// Removes up to `n` lines from the end and yields them, last line
    /// first.
    pub fn pop_lines(&mut self, n: usize) -> (r: Vec<Tableline>)
        ensures
            ({
                let m: int = if n <= old(self).0@.len() {
                    n as int
                } else {
                    old(self).0@.len() as int
                };
                final(self).0@ == old(self).0@.take(old(self).0@.len() - m) && r@.len() == m
                    && forall|i: int|
                    0 <= i < m ==> #[trigger] r@[i] == old(self).0@[old(self).0@.len() - 1 - i]
            }),
    {
        let count = if n < self.0.len() {
            n
        } else {
            self.0.len()
        };
        let mut out: Vec<Tableline> = Vec::new();
        let mut k: usize = 0;
        while k < count
            invariant
                k <= count,
                count <= old(self).0@.len(),
                self.0@ == old(self).0@.take(old(self).0@.len() - k),
                out@.len() == k,
                forall|i: int|
                    0 <= i < k ==> #[trigger] out@[i] == old(self).0@[old(self).0@.len() - 1 - i],
            decreases count - k,
        {
            let line = self.0.pop().unwrap();
            out.push(line);
            proof {
                assert(self.0@ =~= old(self).0@.take(old(self).0@.len() - (k + 1)));
            }
            k = k + 1;
        }
        out
    }

    /// Removes the lines in the inclusive index range; fails when either
    /// end is out of range.
    pub fn remove_lines(&mut self, start: usize, end: usize) -> (r: Result<(), String>)
        ensures
            (start >= old(self).0@.len() || end >= old(self).0@.len()) ==> r is Err
                && final(self).0@ == old(self).0@,
            (start < old(self).0@.len() && end < old(self).0@.len() && start <= end) ==> r is Ok
                && final(self).0@ == old(self).0@.subrange(0, start as int) + old(self).0@.subrange(
                end + 1,
                old(self).0@.len() as int,
            ),
            (start < old(self).0@.len() && end < old(self).0@.len() && start > end) ==> r is Ok
                && final(self).0@ == old(self).0@,
    {
        if start >= self.0.len() || end >= self.0.len() {
            return Err(String::from_str("Index out of range"));
        }
        if start > end {
            proof {
                assert(self.0@ =~= old(self).0@);
            }
            return Ok(());
        }
        let mut k = start;
        proof {
            assert(self.0@ =~= old(self).0@.subrange(0, start as int) + old(self).0@.subrange(
                start as int,
                old(self).0@.len() as int,
            ));
        }
        while k <= end
            invariant
                start <= k,
                k <= end + 1,
                end < old(self).0@.len(),
                old(self).0@.len() <= usize::MAX,
                self.0@ == old(self).0@.subrange(0, start as int) + old(self).0@.subrange(
                    k as int,
                    old(self).0@.len() as int,
                ),
            decreases end + 1 - k,
        {
            proof {
                assert(self.0@.len() > start);
            }
            let _ = self.0.remove(start);
            proof {
                assert(self.0@ =~= old(self).0@.subrange(0, start as int) + old(self).0@.subrange(
                    k + 1,
                    old(self).0@.len() as int,
                ));
            }
            k = k + 1;
        }
        Ok(())
    }

    /// Inserts the given lines at the index, in order; fails when the
    /// index is past the end.
    pub fn insert_lines(&mut self, index: usize, lines: Vec<Tableline>) -> (r: Result<(), String>)
        ensures
            index <= old(self).0@.len() ==> r is Ok && final(self).0@ == old(self).0@.subrange(
                0,
                index as int,
            ) + lines@ + old(self).0@.subrange(index as int, old(self).0@.len() as int),
            index > old(self).0@.len() ==> r is Err && final(self).0@ == old(self).0@,
    {
        if index > self.0.len() {
            return Err(String::from_str("Index out of range"));
        }
        let mut rest = lines;
        let ghost cseq = rest@;
        let total = rest.len();
        let mut k: usize = 0;
        proof {
            assert(cseq.len() == total as int);
            assert(self.0@ =~= old(self).0@.subrange(0, index as int) + cseq.subrange(0, 0) + old(
                self,
            ).0@.subrange(index as int, old(self).0@.len() as int));
        }
        while rest.len() > 0
            invariant
                k + rest@.len() == cseq.len(),
                cseq.len() <= usize::MAX,
                index <= old(self).0@.len(),
                index + k <= self.0@.len(),
                self.0@.len() == old(self).0@.len() + k,
                rest@ == cseq.subrange(k as int, cseq.len() as int),
                self.0@ == old(self).0@.subrange(0, index as int) + cseq.subrange(0, k as int)
                    + old(self).0@.subrange(index as int, old(self).0@.len() as int),
            decreases rest@.len(),
        {
            let c = rest.remove(0);
            proof {
                assert(rest@ =~= cseq.subrange(k + 1, cseq.len() as int));
                assert(c == cseq[k as int]);
            }
            let cur = self.0.len();
            proof {
                assert(index + k <= cur);
            }
            let ghost prev = self.0@;
            self.0.insert(index + k, c);
            proof {
                assert(self.0@ =~= prev.subrange(0, index + k as int).push(c) + prev.subrange(
                    index + k as int,
                    prev.len() as int,
                ));
                assert(prev.subrange(0, index + k as int) =~= old(self).0@.subrange(
                    0,
                    index as int,
                ) + cseq.subrange(0, k as int));
                assert(prev.subrange(index + k as int, prev.len() as int) =~= old(self).0@.subrange(
                    index as int,
                    old(self).0@.len() as int,
                ));
                assert(self.0@ =~= old(self).0@.subrange(0, index as int) + cseq.subrange(0, k + 1)
                    + old(self).0@.subrange(index as int, old(self).0@.len() as int));
            }
            k = k + 1;
        }
        proof {
            assert(cseq.subrange(0, k as int) =~= cseq);
        }
        Ok(())
    }

    /// The number of lines.
    pub fn len(&self) -> (r: usize)
        ensures
            r == self.0@.len(),
    {
        self.0.len()
    }

    /// The line at the index, if any.
    pub fn get_line(&self, index: usize) -> (r: Option<&Tableline>)
        ensures
            index < self.0@.len() ==> (r matches Some(l) && *l == self.0@[index as int]),
            index >= self.0@.len() ==> r is None,
    {
        if index < self.0.len() {
            Some(&self.0[index])
        } else {
            None
        }
    }

    /// The lines in the inclusive index range; nothing when either end
    /// is out of range.
    pub fn get_lines(&self, start: usize, end: usize) -> (r: Option<&[Tableline]>)
        ensures
            (start >= self.0@.len() || end >= self.0@.len()) ==> r is None,
            (start < self.0@.len() && end < self.0@.len() && start <= end) ==> (r matches Some(l)
                && l@ == self.0@.subrange(start as int, end + 1)),
            (start < self.0@.len() && end < self.0@.len() && start > end) ==> (r matches Some(l)
                && l@.len() == 0),
    {
        if start >= self.0.len() || end >= self.0.len() {
            return None;
        }
        if start > end {
            return Some(vstd::slice::slice_subrange(self.0.as_slice(), start, start));
        }
        Some(vstd::slice::slice_subrange(self.0.as_slice(), start, end + 1))
    }

    /// The cell at the (line, column) position, if any.
    pub fn get_cell(&self, position: (usize, usize)) -> (r: Option<&Tablecell>)
        ensures
            (position.0 < self.0@.len() && position.1 < self.0@[position.0 as int].0@.len()) ==> (
            r matches Some(c) && *c == self.0@[position.0 as int].0@[position.1 as int]),
            (position.0 >= self.0@.len() || position.1 >= self.0@[position.0 as int].0@.len())
                ==> r is None,
    {
        let (row, col) = position;
        if row >= self.0.len() {
            return None;
        }
        self.0[row].get_cell(col)
    }

    /// Extracts the cross section of the selected lines and columns:
    /// for each selected line that exists, the cells of the selected
    /// columns that exist, in selection order.
    pub fn get_subtable(self, selection: (Vec<usize>, Vec<usize>)) -> (r: Option<Table>)
        ensures
            r matches Some(t) && ({
                let picked = pick_lines(self.0@, selection.0@, selection.1@, 0);
                t.0@.len() == picked.len() && forall|i: int|
                    0 <= i < picked.len() ==> (#[trigger] t.0@[i]).0@ == picked[i]
            }),
    {
        let (line_sel, col_sel) = selection;
        let mut table = Table::new();
        let ghost done = Seq::<Seq<Tablecell>>::empty();
        let ghost picked = pick_lines(self.0@, line_sel@, col_sel@, 0);
        let mut i: usize = 0;
        proof {
            assert(done + pick_lines(self.0@, line_sel@, col_sel@, 0) =~= pick_lines(
                self.0@,
                line_sel@,
                col_sel@,
                0,
            ));
        }
        while i < line_sel.len()
            invariant
                i <= line_sel@.len(),
                picked == pick_lines(self.0@, line_sel@, col_sel@, 0),
                table.0@.len() == done.len(),
                forall|j: int| 0 <= j < done.len() ==> (#[trigger] table.0@[j]).0@ == done[j],
                picked == done + pick_lines(self.0@, line_sel@, col_sel@, i as int),
            decreases line_sel@.len() - i,
        {
            let li = line_sel[i];
            if li < self.0.len() {
                let line = &self.0[li];
                let mut new_line = Tableline::new();
                let ghost cdone = Seq::<Tablecell>::empty();
                let ghost row = pick_cells(line.0@, col_sel@, 0);
                let mut j: usize = 0;
                proof {
                    assert(cdone + pick_cells(line.0@, col_sel@, 0) =~= pick_cells(
                        line.0@,
                        col_sel@,
                        0,
                    ));
                }
                while j < col_sel.len()
                    invariant
                        j <= col_sel@.len(),
                        row == pick_cells(line.0@, col_sel@, 0),
                        new_line.0@.len() == cdone.len(),
                        new_line.0@ == cdone,
                        row == cdone + pick_cells(line.0@, col_sel@, j as int),
                    decreases col_sel@.len() - j,
                {
                    let cj = col_sel[j];
                    if cj < line.0.len() {
                        let cell = line.0[cj].duplicate();
                        new_line.push_cell(cell);
                        proof {
                            assert(pick_cells(line.0@, col_sel@, j as int) == seq![
                                line.0@[col_sel@[j as int] as int],
                            ] + pick_cells(line.0@, col_sel@, j as int + 1));
                            assert(row =~= cdone.push(line.0@[col_sel@[j as int] as int])
                                + pick_cells(line.0@, col_sel@, j as int + 1));
                            cdone = cdone.push(line.0@[col_sel@[j as int] as int]);
                            assert(new_line.0@ =~= cdone);
                        }
                    } else {
                        proof {
                            assert(pick_cells(line.0@, col_sel@, j as int) == pick_cells(
                                line.0@,
                                col_sel@,
                                j as int + 1,
                            ));
                        }
                    }
                    j = j + 1;
                }
                proof {
                    assert(pick_cells(line.0@, col_sel@, j as int).len() == 0);
                    assert(row =~= cdone);
                }
                table.push_line(new_line);
                proof {
                    assert(pick_lines(self.0@, line_sel@, col_sel@, i as int) == seq![
                        pick_cells(self.0@[line_sel@[i as int] as int].0@, col_sel@, 0),
                    ] + pick_lines(self.0@, line_sel@, col_sel@, i as int + 1));
                    assert(picked =~= done.push(row) + pick_lines(
                        self.0@,
                        line_sel@,
                        col_sel@,
                        i as int + 1,
                    ));
                    assert(forall|m: int|
                        0 <= m < done.len() ==> #[trigger] done.push(row)[m] == done[m]);
                    done = done.push(row);
                }
            } else {
                proof {
                    assert(pick_lines(self.0@, line_sel@, col_sel@, i as int) == pick_lines(
                        self.0@,
                        line_sel@,
                        col_sel@,
                        i as int + 1,
                    ));
                }
            }
            i = i + 1;
        }
        proof {
            assert(pick_lines(self.0@, line_sel@, col_sel@, i as int).len() == 0);
            assert(picked =~= done);
        }
        Some(table)
    }

    /// The length of the longest line.
    pub fn get_longest_row(&self) -> (r: usize)
        ensures
            forall|i: int| 0 <= i < self.0@.len() ==> (#[trigger] self.0@[i]).0@.len() <= r,
            self.0@.len() == 0 ==> r == 0,
            self.0@.len() > 0 ==> exists|i: int|
                0 <= i < self.0@.len() && (#[trigger] self.0@[i]).0@.len() == r,
    {
        let mut best: usize = 0;
        let mut i: usize = 0;
        while i < self.0.len()
            invariant
                i <= self.0@.len(),
                forall|j: int| 0 <= j < i ==> (#[trigger] self.0@[j]).0@.len() <= best,
                i == 0 ==> best == 0,
                i > 0 ==> exists|j: int|
                    0 <= j < i && (#[trigger] self.0@[j]).0@.len() == best,
            decreases self.0@.len() - i,
        {
            let l = self.0[i].len();
            if l > best || i == 0 {
                best = l;
                proof {
                    assert((#[trigger] self.0@[i as int]).0@.len() == best);
                }
            }
            i = i + 1;
        }
        best
    }

    /// Paints every cell of the line at the index; does nothing when
    /// there is none.
    pub fn set_color_line(&mut self, index: usize, color: OutputColor)
        ensures
            final(self).0@.len() == old(self).0@.len(),
            forall|i: int|
                0 <= i < old(self).0@.len() && i != index ==> #[trigger] final(self).0@[i]
                    == old(self).0@[i],
            index < old(self).0@.len() ==> {
                let before = old(self).0@[index as int].0@;
                let after = final(self).0@[index as int].0@;
                after.len() == before.len() && forall|j: int|
                    0 <= j < before.len() ==> (#[trigger] after[j]).core == before[j].core
                        && after[j].color == color
            },
    {
        if index >= self.0.len() {
            return;
        }
        let line = &mut self.0[index];
        line.set_all_colors(color);
    }

    /// Paints the cell at the column in every line that has one.
    pub fn set_color_column(&mut self, index: usize, color: OutputColor)
        ensures
            final(self).0@.len() == old(self).0@.len(),
            forall|i: int|
                0 <= i < old(self).0@.len() ==> {
                    let before = (#[trigger] old(self).0@[i]).0@;
                    let after = final(self).0@[i].0@;
                    after.len() == before.len() && (forall|j: int|
                        0 <= j < before.len() && j != index ==> #[trigger] after[j] == before[j])
                        && (index < before.len() ==> after[index as int].core
                        == before[index as int].core && after[index as int].color == color)
                },
    {
        let n = self.0.len();
        let mut i: usize = 0;
        while i < n
            invariant
                i <= n,
                n == self.0@.len(),
                self.0@.len() == old(self).0@.len(),
                forall|m: int| i <= m < n ==> #[trigger] self.0@[m] == old(self).0@[m],
                forall|m: int|
                    0 <= m < i ==> {
                        let before = (#[trigger] old(self).0@[m]).0@;
                        let after = self.0@[m].0@;
                        after.len() == before.len() && (forall|j: int|
                            0 <= j < before.len() && j != index ==> #[trigger] after[j]
                                == before[j]) && (index < before.len() ==> after[index as int].core
                            == before[index as int].core && after[index as int].color == color)
                    },
            decreases n - i,
        {
            let line = &mut self.0[i];
            line.set_cell_color(index, color);
            i = i + 1;
        }
    }
}

} // verus!
