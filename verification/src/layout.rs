//! Text layouts of a matrix whose entries are already formatted.

use vstd::prelude::*;
use vstd::string::*;
use crate::matrix::{Matrix, MatrixModel};

verus! {

/// The parts, in order, with `sep` between each two neighbours.
pub open spec fn joined(parts: Seq<Seq<char>>, sep: Seq<char>) -> Seq<char>
    decreases parts.len(),
{
    if parts.len() == 0 {
        Seq::empty()
    } else if parts.len() == 1 {
        parts[0]
    } else {
        joined(parts.drop_last(), sep) + sep + parts.last()
    }
}

/// The texts of row `i`, from its first column to its last.
pub open spec fn row_texts(m: MatrixModel<String>, i: int) -> Seq<Seq<char>> {
    Seq::new(m.cols, |k: int| m.entry(i, k)@)
}

/// The first `k` lines of the plain layout: each row as `|a b c|` and a newline.
pub open spec fn plain_lines(m: MatrixModel<String>, k: int) -> Seq<char>
    decreases k,
{
    if k <= 0 {
        Seq::empty()
    } else {
        plain_lines(m, k - 1) + "|"@ + joined(row_texts(m, k - 1), " "@) + "|\n"@
    }
}

/// The plain layout: one line `|a b c|` per row.
pub open spec fn plain_text(m: MatrixModel<String>) -> Seq<char> {
    plain_lines(m, m.rows as int)
}

/// The LaTeX layout: a `bmatrix` whose rows are the entries joined by ` & `,
/// separated by ` \\ `.
pub open spec fn latex_text(m: MatrixModel<String>) -> Seq<char> {
    "\\begin{bmatrix}"@
        + joined(Seq::new(m.rows, |r: int| joined(row_texts(m, r), " & "@)), " \\\\ "@)
        + "\\end{bmatrix}"@
}

/// The bracketed layout: each row as `[a  b  c]` and a newline, with an empty
/// line between rows.
pub open spec fn bracket_text(m: MatrixModel<String>) -> Seq<char> {
    joined(Seq::new(m.rows, |r: int| "["@ + joined(row_texts(m, r), "  "@) + "]\n"@), "\n"@)
}

/// Adding one more part to a join adds the separator and the part.
pub proof fn lemma_joined_push(parts: Seq<Seq<char>>, sep: Seq<char>, part: Seq<char>)
    ensures
        joined(parts.push(part), sep) == if parts.len() == 0 { part } else { joined(parts, sep) + sep + part },
{
    assert(parts.push(part).drop_last() =~= parts);
}

/// Appends the texts at positions `start .. start + n` of `cells`, joined by `sep`.
fn append_joined(out: &mut String, cells: &Vec<String>, start: usize, n: usize, sep: &str)
    requires
        start + n <= cells@.len(),
    ensures
        final(out)@ == old(out)@ + joined(
            Seq::new(n as nat, |k: int| cells@[start + k]@),
            sep@,
        ),
{
    let ghost parts = Seq::new(n as nat, |k: int| cells@[start + k]@);
    let ghost base = out@;
    let len = cells.len();
    let mut k: usize = 0;
    while k < n
        invariant
            k <= n,
            start + n <= cells@.len(),
            len == cells@.len(),
            parts == Seq::new(n as nat, |k: int| cells@[start + k]@),
            out@ == base + joined(parts.take(k as int), sep@),
        decreases n - k,
    {
        proof {
            lemma_joined_push(parts.take(k as int), sep@, parts[k as int]);
            assert(parts.take(k as int).push(parts[k as int]) =~= parts.take(k + 1));
        }
        if k > 0 {
            out.append(sep);
        }
        out.append(cells[start + k].as_str());
        k = k + 1;
    }
    assert(parts.take(n as int) =~= parts);
}

impl Matrix<String> {
    /// The texts, row by row, as lines `|a b c|`.
    pub fn plain_layout(&self) -> (text: String)
        ensures
            text@ == plain_text(self@),
    {
        let cells = self.entries();
        let rows = self.rows();
        let cols = self.cols();
        let len = cells.len();
        let mut out = String::new();
        let mut r: usize = 0;
        while r < rows
            invariant
                r <= rows,
                rows == self@.rows,
                cols == self@.cols,
                cells@ == self@.entries,
                len == cells@.len(),
                self@.well_formed(),
                out@ == plain_lines(self@, r as int),
            decreases rows - r,
        {
            proof {
                assert((r + 1) * cols <= rows * cols) by (nonlinear_arith)
                    requires r + 1 <= rows;
                assert((r + 1) * cols == r * cols + cols) by (nonlinear_arith);
            }
            let ghost before = out@;
            out.append("|");
            append_joined(&mut out, cells, r * cols, cols, " ");
            out.append("|\n");
            proof {
                assert(Seq::new(cols as nat, |k: int| cells@[r * cols + k]@) =~= row_texts(self@, r as int));
            }
            r = r + 1;
        }
        out
    }

    /// The texts as a LaTeX `bmatrix`: entries joined by ` & `, rows joined by ` \\ `.
    pub fn latex_layout(&self) -> (text: String)
        ensures
            text@ == latex_text(self@),
    {
        let cells = self.entries();
        let rows = self.rows();
        let cols = self.cols();
        let len = cells.len();
        let ghost lines = Seq::new(self@.rows, |r: int| joined(row_texts(self@, r), " & "@));
        let mut out = String::new();
        out.append("\\begin{bmatrix}");
        let ghost head = out@;
        let mut r: usize = 0;
        while r < rows
            invariant
                r <= rows,
                rows == self@.rows,
                cols == self@.cols,
                cells@ == self@.entries,
                len == cells@.len(),
                self@.well_formed(),
                lines == Seq::new(self@.rows, |r: int| joined(row_texts(self@, r), " & "@)),
                head == "\\begin{bmatrix}"@,
                out@ == head + joined(lines.take(r as int), " \\\\ "@),
            decreases rows - r,
        {
            proof {
                assert((r + 1) * cols <= rows * cols) by (nonlinear_arith)
                    requires r + 1 <= rows;
                assert((r + 1) * cols == r * cols + cols) by (nonlinear_arith);
                lemma_joined_push(lines.take(r as int), " \\\\ "@, lines[r as int]);
                assert(lines.take(r as int).push(lines[r as int]) =~= lines.take(r + 1));
                assert(Seq::new(cols as nat, |k: int| cells@[r * cols + k]@) =~= row_texts(self@, r as int));
            }
            if r > 0 {
                out.append(" \\\\ ");
            }
            append_joined(&mut out, cells, r * cols, cols, " & ");
            r = r + 1;
        }
        out.append("\\end{bmatrix}");
        assert(lines.take(rows as int) =~= lines);
        out
    }

    /// The texts, row by row, as lines `[a  b  c]` with an empty line between rows.
    pub fn bracket_layout(&self) -> (text: String)
        ensures
            text@ == bracket_text(self@),
    {
        let cells = self.entries();
        let rows = self.rows();
        let cols = self.cols();
        let len = cells.len();
        let ghost lines = Seq::new(self@.rows, |r: int| "["@ + joined(row_texts(self@, r), "  "@) + "]\n"@);
        let mut out = String::new();
        let mut r: usize = 0;
        while r < rows
            invariant
                r <= rows,
                rows == self@.rows,
                cols == self@.cols,
                cells@ == self@.entries,
                len == cells@.len(),
                self@.well_formed(),
                lines == Seq::new(self@.rows, |r: int| "["@ + joined(row_texts(self@, r), "  "@) + "]\n"@),
                out@ == joined(lines.take(r as int), "\n"@),
            decreases rows - r,
        {
            proof {
                assert((r + 1) * cols <= rows * cols) by (nonlinear_arith)
                    requires r + 1 <= rows;
                assert((r + 1) * cols == r * cols + cols) by (nonlinear_arith);
                lemma_joined_push(lines.take(r as int), "\n"@, lines[r as int]);
                assert(lines.take(r as int).push(lines[r as int]) =~= lines.take(r + 1));
                assert(Seq::new(cols as nat, |k: int| cells@[r * cols + k]@) =~= row_texts(self@, r as int));
            }
            if r > 0 {
                out.append("\n");
            }
            out.append("[");
            append_joined(&mut out, cells, r * cols, cols, "  ");
            out.append("]\n");
            r = r + 1;
        }
        assert(lines.take(rows as int) =~= lines);
        out
    }
}

} // verus!
