//! The tree renderer: a fixed-column table (ID, Objective, Status, Tier)
//! with ancestry connectors prefixed to the Objective column, and the
//! cell and table machinery it is built on.
//!
//! All widths are counted in characters, so connector glyphs and tier
//! glyphs line up like any other text.

use vstd::prelude::*;
use vstd::std_specs::iter::IteratorSpec;
use vstd::string::*;

use crate::forest::{flatten_chains, forest_linked, records_of};
use crate::quest::Chain;
use crate::store::QuestLog;

verus! {

broadcast use
    vstd::string::axiom_spec_iter,
    vstd::string::next_postcondition,
    vstd::slice::axiom_spec_len;

/// A character sequence never encodes to fewer bytes than it has
/// characters.
proof fn lemma_chars_le_bytes(cs: Seq<char>)
    ensures
        vstd::utf8::encode_utf8(cs).len() >= cs.len(),
    decreases cs.len(),
{
    if cs.len() > 0 {
        lemma_chars_le_bytes(cs.drop_first());
        assert(vstd::utf8::encode_scalar(cs[0] as u32).len() >= 1);
    }
}

/// Counts the characters of a string (its length in characters, not in
/// bytes).
pub fn char_count(s: &str) -> (n: usize)
    ensures
        n as int == s@.len(),
{
    proof {
        lemma_chars_le_bytes(s@);
        assert(s.spec_bytes() == vstd::utf8::encode_utf8(s@));
    }
    let bytes = s.as_bytes().len();
    let mut it = s.chars();
    let mut n: usize = 0;
    loop
        invariant
            s@.len() <= bytes,
            it.obeys_prophetic_iter_laws(),
            n + it.remaining().len() == s@.len(),
        ensures
            n as int == s@.len(),
        decreases bytes - n,
    {
        match it.next() {
            Some(_) => {
                n = n + 1;
            },
            None => {
                break;
            },
        }
    }
    n
}

/// The character of a single decimal digit.
pub open spec fn digit_char(d: int) -> char {
    if d == 0 {
        '0'
    } else if d == 1 {
        '1'
    } else if d == 2 {
        '2'
    } else if d == 3 {
        '3'
    } else if d == 4 {
        '4'
    } else if d == 5 {
        '5'
    } else if d == 6 {
        '6'
    } else if d == 7 {
        '7'
    } else if d == 8 {
        '8'
    } else {
        '9'
    }
}

/// The decimal digits of a non-negative integer, most significant first.
pub open spec fn decimal_digits(n: int) -> Seq<char>
    decreases n,
{
    if n < 10 {
        seq![digit_char(n)]
    } else {
        decimal_digits(n / 10).push(digit_char(n % 10))
    }
}

/// The decimal rendering of a signed integer: a minus sign for negative
/// values, then the digits.
pub open spec fn decimal_i64(n: int) -> Seq<char> {
    if n < 0 {
        seq!['-'] + decimal_digits(-n)
    } else {
        decimal_digits(n)
    }
}

/// One decimal digit as text.
fn digit_str(d: u64) -> (r: &'static str)
    requires
        d < 10,
    ensures
        r@ == seq![digit_char(d as int)],
{
    proof {
        reveal_strlit("0");
        reveal_strlit("1");
        reveal_strlit("2");
        reveal_strlit("3");
        reveal_strlit("4");
        reveal_strlit("5");
        reveal_strlit("6");
        reveal_strlit("7");
        reveal_strlit("8");
        reveal_strlit("9");
    }
    match d {
        0 => "0",
        1 => "1",
        2 => "2",
        3 => "3",
        4 => "4",
        5 => "5",
        6 => "6",
        7 => "7",
        8 => "8",
        _ => "9",
    }
}

/// Renders an unsigned integer in decimal.
pub fn u64_to_string(v: u64) -> (r: String)
    ensures
        r@ == decimal_digits(v as int),
    decreases v,
{
    if v < 10 {
        String::from_str(digit_str(v))
    } else {
        proof {
            assert(v / 10 < v) by (nonlinear_arith)
                requires
                    v >= 10,
            ;
        }
        let mut s = u64_to_string(v / 10);
        s.append(digit_str(v % 10));
        proof {
            assert(s@ =~= decimal_digits(v as int / 10).push(digit_char(v as int % 10)));
        }
        s
    }
}

/// Renders a signed integer in decimal.
pub fn i64_to_string(v: i64) -> (r: String)
    ensures
        r@ == decimal_i64(v as int),
{
    if v >= 0 {
        u64_to_string(v as u64)
    } else {
        let m: u64 = if v == i64::MIN {
            9223372036854775808u64
        } else {
            (-v) as u64
        };
        proof {
            reveal_strlit("-");
        }
        let mut s = String::from_str("-");
        let digits = u64_to_string(m);
        s.append(digits.as_str());
        proof {
            assert(s@ =~= seq!['-'] + decimal_digits(-(v as int)));
        }
        s
    }
}

/// A table cell: plain text plus its width in characters.
pub struct Cell {
    pub text: String,
    pub width: usize,
}

impl Cell {
    /// The stored width is the text's character count.
    pub open spec fn wf(self) -> bool {
        self.width as int == self.text@.len()
    }

    /// Builds a cell, counting the text's characters.
    pub fn new(text: String) -> (r: Cell)
        ensures
            r.wf(),
            r.text@ == text@,
    {
        let width = char_count(text.as_str());
        Cell { text, width }
    }

    /// Builds a cell from borrowed text.
    pub fn from_str(text: &str) -> (r: Cell)
        ensures
            r.wf(),
            r.text@ == text@,
    {
        Cell::new(String::from_str(text))
    }

    /// Builds a cell showing an integer in decimal.
    pub fn from_i64(value: i64) -> (r: Cell)
        ensures
            r.wf(),
            r.text@ == decimal_i64(value as int),
    {
        Cell::new(i64_to_string(value))
    }

    /// Borrows the cell text.
    pub fn content(&self) -> (r: &String)
        ensures
            r == &self.text,
    {
        &self.text
    }

    /// Copies the cell width, in characters.
    pub fn width(&self) -> (r: usize)
        ensures
            r == self.width,
    {
        self.width
    }
}

/// A run of spaces.
pub open spec fn spaces(n: int) -> Seq<char>
    decreases n,
{
    if n <= 0 {
        Seq::empty()
    } else {
        spaces(n - 1).push(' ')
    }
}

/// A cell padded to the column width: the text, spaces up to the width,
/// and the single space that separates columns.
pub open spec fn pad_cell(t: Seq<char>, w: int) -> Seq<char> {
    t + spaces(w - t.len()) + seq![' ']
}

/// The texts of a sequence of cells.
pub open spec fn texts_of(cells: Seq<Cell>) -> Seq<Seq<char>> {
    cells.map_values(|c: Cell| c.text@)
}

/// The width of column `j`: the maximum of `base` (the header width)
/// and the widths of the column's cells.
pub open spec fn max_width(rows: Seq<Seq<Seq<char>>>, j: int, base: int) -> int
    decreases rows.len(),
{
    if rows.len() == 0 {
        base
    } else {
        let m = max_width(rows.drop_last(), j, base);
        if rows.last()[j].len() > m {
            rows.last()[j].len() as int
        } else {
            m
        }
    }
}

/// The widths of all columns of a table.
pub open spec fn col_widths(cols: Seq<Seq<char>>, rows: Seq<Seq<Seq<char>>>) -> Seq<int> {
    Seq::new(cols.len(), |j: int| max_width(rows, j, cols[j].len() as int))
}

/// The first `j` cells of a row, each padded to its column width.
pub open spec fn cells_text_upto(row: Seq<Seq<char>>, ws: Seq<int>, j: int) -> Seq<char>
    decreases j,
{
    if j <= 0 {
        Seq::empty()
    } else {
        cells_text_upto(row, ws, j - 1) + pad_cell(row[j - 1], ws[j - 1])
    }
}

/// The first `k` rows, each on its own line below the previous one.
pub open spec fn rows_text_upto(rows: Seq<Seq<Seq<char>>>, ws: Seq<int>, k: int) -> Seq<char>
    decreases k,
{
    if k <= 0 {
        Seq::empty()
    } else {
        rows_text_upto(rows, ws, k - 1) + seq!['\n'] + cells_text_upto(
            rows[k - 1],
            ws,
            rows[k - 1].len() as int,
        )
    }
}

/// The rendered table: the header row, then one line per row, every
/// cell padded to its column's width.
pub open spec fn table_text(cols: Seq<Seq<char>>, rows: Seq<Seq<Seq<char>>>) -> Seq<char> {
    let ws = col_widths(cols, rows);
    cells_text_upto(cols, ws, cols.len() as int) + rows_text_upto(rows, ws, rows.len() as int)
}

/// Appends a cell to the output, padded to the column width and followed
/// by the separating space.
fn push_padded(out: &mut String, cell: &Cell, w: usize)
    requires
        cell.wf(),
    ensures
        final(out)@ == old(out)@ + pad_cell(cell.text@, w as int),
{
    let ghost base = out@;
    let ghost t = cell.text@;
    out.append(cell.text.as_str());
    let mut k = cell.width;
    proof {
        reveal_strlit(" ");
        assert(out@ =~= base + t + spaces(k - t.len()));
    }
    while k < w
        invariant
            cell.wf(),
            t == cell.text@,
            t.len() <= k,
            k <= w || k == t.len(),
            out@ == base + t + spaces(k - t.len()),
        decreases w - k,
    {
        proof {
            reveal_strlit(" ");
        }
        out.append(" ");
        k = k + 1;
        proof {
            assert(out@ =~= base + t + spaces(k - t.len()));
        }
    }
    proof {
        reveal_strlit(" ");
    }
    out.append(" ");
    proof {
        assert(out@ =~= base + pad_cell(t, w as int));
    }
}

/// A simple table, composed of column headers and rows; the column
/// widths are kept at the maximum rendered width seen so far.
pub struct Table {
    pub column_widths: Vec<usize>,
    pub columns: Vec<Cell>,
    pub rows: Vec<Vec<Cell>>,
}

impl Table {
    /// The header texts.
    pub open spec fn spec_columns(self) -> Seq<Seq<char>> {
        texts_of(self.columns@)
    }

    /// The rows' texts.
    pub open spec fn spec_rows(self) -> Seq<Seq<Seq<char>>> {
        self.rows@.map_values(|r: Vec<Cell>| texts_of(r@))
    }

    /// Every row is as wide as the header, every cell's stored width is
    /// right, and the tracked column widths are the maxima of what the
    /// table holds.
    pub open spec fn wf(self) -> bool {
        &&& self.column_widths@.len() == self.columns@.len()
        &&& forall|j: int| 0 <= j < self.columns@.len() ==> (#[trigger] self.columns@[j]).wf()
        &&& forall|k: int|
            0 <= k < self.rows@.len() ==> (#[trigger] self.rows@[k])@.len() == self.columns@.len()
        &&& forall|k: int, j: int|
            0 <= k < self.rows@.len() && 0 <= j < self.rows@[k]@.len() ==> (#[trigger] self
                .rows@[k]@[j]).wf()
        &&& forall|j: int|
            0 <= j < self.column_widths@.len() ==> (#[trigger] self.column_widths@[j]) as int
                == max_width(self.spec_rows(), j, self.spec_columns()[j].len() as int)
    }

    /// Constructs a new table with the given column headers and no rows.
    pub fn new(columns: Vec<Cell>) -> (r: Table)
        requires
            forall|j: int| 0 <= j < columns@.len() ==> (#[trigger] columns@[j]).wf(),
        ensures
            r.wf(),
            r.spec_columns() == texts_of(columns@),
            r.spec_rows() =~= Seq::<Seq<Seq<char>>>::empty(),
    {
        let mut column_widths: Vec<usize> = Vec::new();
        let n = columns.len();
        for j in 0..n
            invariant
                n == columns@.len(),
                forall|i: int| 0 <= i < columns@.len() ==> (#[trigger] columns@[i]).wf(),
                column_widths@.len() == j,
                forall|i: int|
                    0 <= i < j ==> (#[trigger] column_widths@[i]) == columns@[i].width,
        {
            column_widths.push(columns[j].width);
        }
        let r = Table { column_widths, columns, rows: Vec::new() };
        proof {
            assert(r.spec_rows() =~= Seq::<Seq<Seq<char>>>::empty());
            assert forall|j: int| 0 <= j < r.column_widths@.len() implies (#[trigger] r
                .column_widths@[j]) as int == max_width(
                r.spec_rows(),
                j,
                r.spec_columns()[j].len() as int,
            ) by {
                assert(r.spec_columns()[j] == r.columns@[j].text@);
            }
        }
        r
    }

    /// Adds a new row, widening any column whose new cell is wider than
    /// the column's current maximum.
    pub fn add(&mut self, row: Vec<Cell>)
        requires
            old(self).wf(),
            row@.len() == old(self).columns@.len(),
            forall|j: int| 0 <= j < row@.len() ==> (#[trigger] row@[j]).wf(),
        ensures
            final(self).wf(),
            final(self).spec_columns() == old(self).spec_columns(),
            final(self).spec_rows() == old(self).spec_rows().push(texts_of(row@)),
    {
        let n = row.len();
        for j in 0..n
            invariant
                n == row@.len(),
                n == self.columns@.len(),
                self.column_widths@.len() == n,
                self.columns == old(self).columns,
                self.rows == old(self).rows,
                forall|i: int| 0 <= i < row@.len() ==> (#[trigger] row@[i]).wf(),
                old(self).wf(),
                forall|i: int|
                    j <= i < n ==> (#[trigger] self.column_widths@[i]) == old(
                        self,
                    ).column_widths@[i],
                forall|i: int|
                    0 <= i < j ==> (#[trigger] self.column_widths@[i]) as int == (if row@[i].text@.len()
                        > old(self).column_widths@[i] {
                        row@[i].text@.len() as int
                    } else {
                        old(self).column_widths@[i] as int
                    }),
        {
            let w = row[j].width;
            if w > self.column_widths[j] {
                self.column_widths.set(j, w);
            }
        }
        let ghost rows0 = self.spec_rows();
        self.rows.push(row);
        proof {
            let t = self.spec_rows();
            assert(t =~= rows0.push(texts_of(row@)));
            assert(t.drop_last() =~= rows0);
            assert(t.last() == texts_of(row@));
            assert forall|j: int| 0 <= j < self.column_widths@.len() implies (#[trigger] self
                .column_widths@[j]) as int == max_width(
                self.spec_rows(),
                j,
                self.spec_columns()[j].len() as int,
            ) by {
                let base = self.spec_columns()[j].len() as int;
                assert(max_width(t, j, base) == (if t.last()[j].len() > max_width(rows0, j, base) {
                    t.last()[j].len() as int
                } else {
                    max_width(rows0, j, base)
                }));
                assert(t.last()[j] == row@[j].text@);
            }
        }
    }

    /// Formats the table: the header row, then one line per row, every
    /// cell padded to its column's final width and followed by a space.
    pub fn to_text(&self) -> (r: String)
        requires
            self.wf(),
        ensures
            r@ == table_text(self.spec_columns(), self.spec_rows()),
    {
        let ghost cols = self.spec_columns();
        let ghost rws = self.spec_rows();
        let ghost ws = col_widths(cols, rws);
        let mut out = String::new();
        let ncols = self.columns.len();
        proof {
            assert(out@ =~= cells_text_upto(cols, ws, 0));
        }
        for j in 0..ncols
            invariant
                self.wf(),
                cols == self.spec_columns(),
                rws == self.spec_rows(),
                ws == col_widths(cols, rws),
                ncols == self.columns@.len(),
                out@ == cells_text_upto(cols, ws, j as int),
        {
            let ghost before = out@;
            push_padded(&mut out, &self.columns[j], self.column_widths[j]);
            proof {
                assert(cols[j as int] == self.columns@[j as int].text@);
                assert(ws[j as int] == self.column_widths@[j as int] as int);
                assert(out@ =~= cells_text_upto(cols, ws, j + 1));
            }
        }
        let nrows = self.rows.len();
        proof {
            assert(out@ + rows_text_upto(rws, ws, 0) =~= out@);
        }
        for k in 0..nrows
            invariant
                self.wf(),
                cols == self.spec_columns(),
                rws == self.spec_rows(),
                ws == col_widths(cols, rws),
                ncols == self.columns@.len(),
                nrows == self.rows@.len(),
                out@ == cells_text_upto(cols, ws, ncols as int) + rows_text_upto(
                    rws,
                    ws,
                    k as int,
                ),
        {
            proof {
                reveal_strlit("\n");
            }
            out.append("\n");
            let ghost line_base = out@;
            proof {
                assert(line_base =~= cells_text_upto(cols, ws, ncols as int) + rows_text_upto(
                    rws,
                    ws,
                    k as int,
                ) + seq!['\n']);
                assert(line_base + cells_text_upto(rws[k as int], ws, 0) =~= line_base);
            }
            let row = &self.rows[k];
            let m = row.len();
            for j in 0..m
                invariant
                    self.wf(),
                    cols == self.spec_columns(),
                    rws == self.spec_rows(),
                    ws == col_widths(cols, rws),
                    ncols == self.columns@.len(),
                    nrows == self.rows@.len(),
                    0 <= k < nrows,
                    row == &self.rows@[k as int],
                    m == row@.len(),
                    m == ncols,
                    line_base == cells_text_upto(cols, ws, ncols as int) + rows_text_upto(
                        rws,
                        ws,
                        k as int,
                    ) + seq!['\n'],
                    out@ == line_base + cells_text_upto(rws[k as int], ws, j as int),
            {
                push_padded(&mut out, &row[j], self.column_widths[j]);
                proof {
                    assert(rws[k as int] == texts_of(self.rows@[k as int]@));
                    assert(rws[k as int][j as int] == row@[j as int].text@);
                    assert(ws[j as int] == self.column_widths@[j as int] as int);
                    assert(out@ =~= line_base + cells_text_upto(rws[k as int], ws, j + 1));
                }
            }
            proof {
                assert(rws[k as int].len() == m);
                assert(out@ =~= cells_text_upto(cols, ws, ncols as int) + rows_text_upto(
                    rws,
                    ws,
                    k + 1,
                ));
            }
        }
        out
    }
}

/// The ancestry connectors for the first `j` ancestor levels: a pipe
/// segment under an ancestor that still has pending siblings, blank
/// space under one that does not.
pub open spec fn connector_upto(flags: Seq<bool>, j: int) -> Seq<char>
    decreases j,
{
    if j <= 0 {
        Seq::empty()
    } else {
        connector_upto(flags, j - 1) + (if flags[j - 1] {
            "│   "@
        } else {
            "    "@
        })
    }
}

/// The full prefix of a nested quest's objective: one connector cell per
/// ancestor level, then the elbow for a last child or the tee for one
/// with later siblings.
pub open spec fn prefix_text(flags: Seq<bool>, is_last: bool) -> Seq<char> {
    connector_upto(flags, flags.len() as int) + (if is_last {
        "└── "@
    } else {
        "├── "@
    })
}

/// The table row of one chain node: id, prefixed objective, status text
/// and tier text.
pub open spec fn chain_row(c: Chain, prefix: Seq<char>) -> Seq<Seq<char>> {
    seq![
        decimal_i64(c.main.id as int),
        prefix + c.main.objective@,
        c.main.status.text_spec(),
        c.main.tier.text_spec(),
    ]
}

/// The rows of a nested chain: its own row, then its secondary chains,
/// each knowing whether this node still has pending siblings.
pub open spec fn chain_rows(c: Chain, flags: Seq<bool>, is_last: bool) -> Seq<Seq<Seq<char>>>
    decreases c,
{
    seq![chain_row(c, prefix_text(flags, is_last))] + chains_rows(c.chains@, flags.push(!is_last))
}

/// The rows of a list of sibling chains; the last sibling closes the
/// nesting with an elbow.
pub open spec fn chains_rows(cs: Seq<Chain>, flags: Seq<bool>) -> Seq<Seq<Seq<char>>>
    decreases cs,
{
    if cs.len() == 0 {
        Seq::empty()
    } else {
        chain_rows(cs[0], flags, cs.len() == 1) + chains_rows(cs.drop_first(), flags)
    }
}

/// The rows of a root chain: its own row without any prefix, then its
/// secondary chains starting at nesting depth zero.
pub open spec fn root_rows(c: Chain) -> Seq<Seq<Seq<char>>> {
    seq![chain_row(c, Seq::empty())] + chains_rows(c.chains@, Seq::empty())
}

/// The rows of a whole forest, root by root.
pub open spec fn forest_rows(cs: Seq<Chain>) -> Seq<Seq<Seq<char>>>
    decreases cs,
{
    if cs.len() == 0 {
        Seq::empty()
    } else {
        root_rows(cs[0]) + forest_rows(cs.drop_first())
    }
}

/// The column headers of the quest table.
pub open spec fn header_texts() -> Seq<Seq<char>> {
    seq!["ID"@, "Objective"@, "Status"@, "Tier"@]
}

/// Populates the table with the rows of one nested chain, each secondary
/// chain indented underneath its parent with ancestry connectors.
///
/// `is_depth_nested[d]` records whether the ancestor at depth `d` still
/// has pending siblings; the slot for this node's depth is set while its
/// children render and reset afterwards, so the vector is reused, not
/// duplicated, across sibling subtrees.
pub fn populate_table(
    chain: &Chain,
    depth: usize,
    is_terminal: bool,
    is_depth_nested: &mut Vec<bool>,
    table: &mut Table,
)
    requires
        old(table).wf(),
        old(table).spec_columns().len() == 4,
        depth <= old(is_depth_nested)@.len(),
        forall|k: int|
            depth <= k < old(is_depth_nested)@.len() ==> old(is_depth_nested)@[k] == false,
    ensures
        final(table).wf(),
        final(table).spec_columns() == old(table).spec_columns(),
        final(table).spec_rows() == old(table).spec_rows() + chain_rows(
            *chain,
            old(is_depth_nested)@.take(depth as int),
            is_terminal,
        ),
        final(is_depth_nested)@.len() >= old(is_depth_nested)@.len(),
        final(is_depth_nested)@.take(depth as int) == old(is_depth_nested)@.take(depth as int),
        forall|k: int|
            depth <= k < final(is_depth_nested)@.len() ==> final(is_depth_nested)@[k] == false,
    decreases *chain,
{
    let ghost flags = is_depth_nested@.take(depth as int);
    let ghost base_rows = table.spec_rows();
    let ghost v0 = is_depth_nested@;
    let mut prefix = String::new();
    proof {
        assert(prefix@ =~= connector_upto(flags, 0));
    }
    for j in 0..depth
        invariant
            depth <= v0.len(),
            is_depth_nested@ == v0,
            flags == v0.take(depth as int),
            prefix@ == connector_upto(flags, j as int),
    {
        proof {
            reveal_strlit("│   ");
            reveal_strlit("    ");
        }
        if is_depth_nested[j] {
            prefix.append("│   ");
        } else {
            prefix.append("    ");
        }
        proof {
            assert(flags[j as int] == v0[j as int]);
            assert(prefix@ =~= connector_upto(flags, j + 1));
        }
    }
    proof {
        reveal_strlit("└── ");
        reveal_strlit("├── ");
    }
    if is_terminal {
        prefix.append("└── ");
    } else {
        prefix.append("├── ");
    }
    proof {
        assert(flags.len() == depth as int);
        assert(prefix@ =~= prefix_text(flags, is_terminal));
    }
    prefix.append(chain.main.objective.as_str());
    let row = vec![
        Cell::from_i64(chain.main.id),
        Cell::new(prefix),
        Cell::from_str(chain.main.status.as_str()),
        Cell::from_str(chain.main.tier.as_str()),
    ];
    let ghost rowv = texts_of(row@);
    proof {
        assert(rowv =~= chain_row(*chain, prefix_text(flags, is_terminal)));
    }
    table.add(row);
    if depth < is_depth_nested.len() {
        is_depth_nested.set(depth, !is_terminal);
    } else {
        is_depth_nested.push(!is_terminal);
    }
    let len_now = is_depth_nested.len();
    proof {
        assert(depth as int + 1 <= len_now as int);
        assert(is_depth_nested@.len() >= v0.len());
    }
    let d1 = depth + 1;
    let ghost flags2 = flags.push(!is_terminal);
    proof {
        assert(is_depth_nested@.take(d1 as int) =~= flags2);
        assert(table.spec_rows() + chains_rows(chain.chains@.subrange(0, chain.chains@.len() as int), flags2)
            =~= base_rows + seq![chain_row(*chain, prefix_text(flags, is_terminal))] + chains_rows(
            chain.chains@,
            flags2,
        )) by {
            assert(chain.chains@.subrange(0, chain.chains@.len() as int) =~= chain.chains@);
        }
    }
    let m = chain.chains.len();
    for k in 0..m
        invariant
            m == chain.chains@.len(),
            table.wf(),
            table.spec_columns().len() == 4,
            table.spec_columns() == old(table).spec_columns(),
            flags2 == flags.push(!is_terminal),
            table.spec_rows() + chains_rows(chain.chains@.subrange(k as int, m as int), flags2)
                == base_rows + seq![chain_row(*chain, prefix_text(flags, is_terminal))]
                + chains_rows(chain.chains@, flags2),
            is_depth_nested@.len() >= d1,
            is_depth_nested@.len() >= v0.len(),
            is_depth_nested@.take(d1 as int) == flags2,
            forall|k2: int| d1 <= k2 < is_depth_nested@.len() ==> is_depth_nested@[k2] == false,
        decreases m - k,
    {
        populate_table(&chain.chains[k], d1, k == m - 1, is_depth_nested, table);
        proof {
            let cs = chain.chains@;
            let tail = cs.subrange(k as int, m as int);
            assert(tail[0] == cs[k as int]);
            assert(tail.drop_first() =~= cs.subrange(k + 1, m as int));
            assert((tail.len() == 1) == (k == m - 1));
            assert(chains_rows(tail, flags2) == chain_rows(cs[k as int], flags2, k == m - 1)
                + chains_rows(cs.subrange(k + 1, m as int), flags2));
        }
    }
    let ghost vprev = is_depth_nested@;
    if depth < is_depth_nested.len() {
        is_depth_nested.set(depth, false);
    }
    proof {
        assert(chain.chains@.subrange(m as int, m as int) =~= Seq::<Chain>::empty());
        assert(table.spec_rows() =~= base_rows + chain_rows(*chain, flags, is_terminal));
        assert forall|i: int| 0 <= i < depth as int implies is_depth_nested@[i] == flags[i] by {
            assert(is_depth_nested@[i] == vprev[i]);
            assert(vprev[i] == vprev.take(d1 as int)[i]);
            assert(flags2[i] == flags[i]);
        }
        assert(is_depth_nested@.take(depth as int) =~= flags);
    }
}

/// Renders a forest of chains into the quest table: a header row, then
/// every root chain followed by its nested secondary chains, connector
/// glyphs marking the ancestry of each nested quest.
pub fn render_forest(chains: &Vec<Chain>) -> (t: Table)
    ensures
        t.wf(),
        t.spec_columns() == header_texts(),
        t.spec_rows() == forest_rows(chains@),
{
    let columns = vec![
        Cell::from_str("ID"),
        Cell::from_str("Objective"),
        Cell::from_str("Status"),
        Cell::from_str("Tier"),
    ];
    proof {
        assert(texts_of(columns@) =~= header_texts());
    }
    let mut table = Table::new(columns);
    let n = chains.len();
    proof {
        assert(chains@.subrange(0, n as int) =~= chains@);
        assert(table.spec_rows() + forest_rows(chains@.subrange(0, n as int)) =~= forest_rows(
            chains@,
        ));
    }
    for k in 0..n
        invariant
            n == chains@.len(),
            table.wf(),
            table.spec_columns() == header_texts(),
            table.spec_rows() + forest_rows(chains@.subrange(k as int, n as int)) == forest_rows(
                chains@,
            ),
    {
        let root = &chains[k];
        let row = vec![
            Cell::from_i64(root.main.id),
            Cell::new(root.main.objective.clone()),
            Cell::from_str(root.main.status.as_str()),
            Cell::from_str(root.main.tier.as_str()),
        ];
        let ghost rowv = texts_of(row@);
        proof {
            assert(Seq::<char>::empty() + root.main.objective@ =~= root.main.objective@);
            assert(rowv =~= chain_row(chains@[k as int], Seq::<char>::empty()));
            assert(header_texts().len() == 4);
            assert(table.columns@.len() == 4);
            assert(row@.len() == 4);
        }
        table.add(row);
        let ghost mid_rows = table.spec_rows();
        let m = root.chains.len();
        proof {
            assert(root.chains@.subrange(0, m as int) =~= root.chains@);
            assert(mid_rows + chains_rows(root.chains@.subrange(0, m as int), Seq::<bool>::empty())
                =~= mid_rows + chains_rows(root.chains@, Seq::<bool>::empty()));
        }
        for j in 0..m
            invariant
                n == chains@.len(),
                0 <= k < n,
                root == &chains@[k as int],
                m == root.chains@.len(),
                table.wf(),
                table.spec_columns() == header_texts(),
                table.spec_rows() + chains_rows(
                    root.chains@.subrange(j as int, m as int),
                    Seq::<bool>::empty(),
                ) == mid_rows + chains_rows(root.chains@, Seq::<bool>::empty()),
        {
            let mut fresh: Vec<bool> = Vec::new();
            proof {
                assert(fresh@.take(0) =~= Seq::<bool>::empty());
                assert(header_texts().len() == 4);
            }
            populate_table(&root.chains[j], 0, j == m - 1, &mut fresh, &mut table);
            proof {
                let cs = root.chains@;
                let tail = cs.subrange(j as int, m as int);
                assert(tail[0] == cs[j as int]);
                assert(tail.drop_first() =~= cs.subrange(j + 1, m as int));
                assert((tail.len() == 1) == (j == m - 1));
                assert(chains_rows(tail, Seq::<bool>::empty()) == chain_rows(
                    cs[j as int],
                    Seq::<bool>::empty(),
                    j == m - 1,
                ) + chains_rows(cs.subrange(j + 1, m as int), Seq::<bool>::empty()));
            }
        }
        proof {
            let cs = chains@;
            let tail = cs.subrange(k as int, n as int);
            assert(tail[0] == cs[k as int]);
            assert(tail.drop_first() =~= cs.subrange(k + 1, n as int));
            assert(forest_rows(tail) == root_rows(cs[k as int]) + forest_rows(
                cs.subrange(k + 1, n as int),
            ));
            assert(root.chains@.subrange(m as int, m as int) =~= Seq::<Chain>::empty());
            assert(table.spec_rows() =~= mid_rows + chains_rows(root.chains@, Seq::<bool>::empty()));
            assert(table.spec_rows() + forest_rows(cs.subrange(k + 1, n as int)) =~= forest_rows(
                cs,
            ));
        }
    }
    proof {
        assert(chains@.subrange(n as int, n as int) =~= Seq::<Chain>::empty());
        assert(table.spec_rows() =~= forest_rows(chains@));
    }
    table
}

impl QuestLog {
    /// Shows all quests in the log: reconstructs the forest and renders
    /// it as the connector-decorated quest table. The rendered rows are
    /// the rows of a properly linked forest that carries the record
    /// content of every stored quest exactly once.
    pub fn show_quests(&self) -> (r: String)
        requires
            self.wf(),
        ensures
            exists|cs: Seq<Chain>|
                {
                    &&& forest_linked(cs)
                    &&& records_of(flatten_chains(cs)).to_multiset() == records_of(
                        self.quests(),
                    ).to_multiset()
                    &&& r@ == table_text(header_texts(), #[trigger] forest_rows(cs))
                },
    {
        let chains = self.get_all_chains();
        let table = render_forest(&chains);
        let text = table.to_text();
        proof {
            assert(forest_linked(chains@) && records_of(flatten_chains(chains@)).to_multiset()
                == records_of(self.quests()).to_multiset() && text@ == table_text(
                header_texts(),
                forest_rows(chains@),
            ));
        }
        text
    }
}

} // verus!
