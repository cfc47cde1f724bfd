//! The terminal grid: a ragged two-dimensional buffer of cells, indexed by an
//! active position (the cursor), with cursor-relative mutation operations.

use crate::parser::{Node, NodeModel};
use unicode_segmentation::UnicodeSegmentation;
use vstd::prelude::*;

verus! {

/// The sequence of extended grapheme clusters of a string, per UAX#29.
pub uninterp spec fn graphemes_of(s: Seq<char>) -> Seq<Seq<char>>;

/// Relies on `UnicodeSegmentation::graphemes` with extended cluster rules:
/// the grapheme clusters of the string, in order — a function of its
/// characters alone.
#[verifier::external_body]
fn split_graphemes(s: &str) -> (r: Vec<String>)
    ensures
        r.deep_view() == graphemes_of(s@),
{
    s.graphemes(true).map(|g| g.to_string()).collect()
}

/// One cell of the grid: holds at most one grapheme cluster, or is blank.
pub struct Cell {
    pub grapheme: Option<String>,
}

/// A single line of the grid; lines grow independently of one another.
struct Line {
    cells: Vec<Cell>,
}

/// The cursor. Unlike the standard, it is 0-indexed.
#[derive(Clone, Copy, Debug)]
pub struct Position {
    pub row: usize,
    pub col: usize,
}

impl PartialEq for Position {
    fn eq(&self, other: &Position) -> (r: bool) {
        self.row == other.row && self.col == other.col
    }
}

impl vstd::std_specs::cmp::PartialEqSpecImpl for Position {
    open spec fn obeys_eq_spec() -> bool {
        true
    }

    open spec fn eq_spec(&self, other: &Position) -> bool {
        self.row == other.row && self.col == other.col
    }
}

/// The mathematical model of a grid: the lines (each a sequence of optional
/// grapheme contents) together with the cursor coordinates.
pub struct GridModel {
    pub lines: Seq<Seq<Option<Seq<char>>>>,
    pub row: int,
    pub col: int,
}

impl View for Cell {
    type V = Option<Seq<char>>;

    open spec fn view(&self) -> Option<Seq<char>> {
        match self.grapheme {
            Some(ref g) => Some(g@),
            None => None,
        }
    }
}

impl View for Line {
    type V = Seq<Option<Seq<char>>>;

    closed spec fn view(&self) -> Seq<Option<Seq<char>>> {
        Seq::new(self.cells@.len(), |i: int| self.cells@[i]@)
    }
}

/// A safe way to interact with a ragged array of cells, indexed by an
/// 'active position' (cursor).
pub struct DataComponent {
    lines: Vec<Line>,
    active_position: Position,
}

impl View for DataComponent {
    type V = GridModel;

    closed spec fn view(&self) -> GridModel {
        GridModel {
            lines: Seq::new(self.lines@.len(), |i: int| self.lines@[i]@),
            row: self.active_position.row as int,
            col: self.active_position.col as int,
        }
    }
}

impl GridModel {
    /// Grid invariant: there is always at least one line, the cursor row is
    /// always an existing line, and the cursor column is at most one past the
    /// last cell of its line.
    pub open spec fn wf(self) -> bool {
        &&& self.lines.len() >= 1
        &&& 0 <= self.row < self.lines.len()
        &&& 0 <= self.col <= self.lines[self.row].len()
    }

    /// The line the cursor is on.
    pub open spec fn active_line(self) -> Seq<Option<Seq<char>>> {
        self.lines[self.row]
    }
}

/// `l` extended with blank cells until it holds at least `n` of them.
pub open spec fn pad_blanks(l: Seq<Option<Seq<char>>>, n: int) -> Seq<Option<Seq<char>>> {
    if l.len() >= n {
        l
    } else {
        l + Seq::new((n - l.len()) as nat, |k: int| None)
    }
}

/// Move the cursor right by one cell, first appending blank cells so that
/// the destination cell exists.
pub open spec fn grid_advance_column(g: GridModel) -> GridModel {
    GridModel {
        lines: g.lines.update(g.row, pad_blanks(g.lines[g.row], g.col + 2)),
        row: g.row,
        col: g.col + 1,
    }
}

/// Move the cursor left by one cell, clamping at column 0.
pub open spec fn grid_retreat_column(g: GridModel) -> GridModel {
    GridModel { lines: g.lines, row: g.row, col: if g.col > 0 {
        g.col - 1
    } else {
        0
    } }
}

/// Move the cursor to column 0 of the next row, appending a fresh one-cell
/// line if that row does not exist yet.
pub open spec fn grid_advance_row(g: GridModel) -> GridModel {
    GridModel {
        lines: if g.row + 1 < g.lines.len() {
            g.lines
        } else {
            g.lines.push(seq![None])
        },
        row: g.row + 1,
        col: 0,
    }
}

/// Move the cursor to column 0 of the previous row, clamping at row 0.
pub open spec fn grid_retreat_row(g: GridModel) -> GridModel {
    GridModel { lines: g.lines, row: if g.row > 0 {
        g.row - 1
    } else {
        0
    }, col: 0 }
}

/// Move the cursor to column 0 of the current row.
pub open spec fn grid_home_column(g: GridModel) -> GridModel {
    GridModel { lines: g.lines, row: g.row, col: 0 }
}

/// Cursor motion is idempotent at the bounds, whatever the prior state:
/// retreating the column at column 0 changes nothing at all, and retreating
/// the row at row 0 changes nothing once the cursor is at column 0. (The row
/// retreat always homes the column first, so away from column 0 it moves
/// the cursor there even at the top row.)
pub proof fn lemma_retreat_idempotent_at_bounds(g: GridModel)
    ensures
        g.col == 0 ==> grid_retreat_column(g) == g,
        g.row == 0 && g.col == 0 ==> grid_retreat_row(g) == g,
{
}

/// The erase-in-line mode selected by an optional parameter string: 0 ("to
/// end", also the default), 1 ("to start"), 2 ("all"), or -1 for anything
/// unrecognized.
pub open spec fn erase_mode(n: Option<Seq<char>>) -> int {
    match n {
        None => 0,
        Some(s) => if s == seq!['0'] {
            0
        } else if s == seq!['1'] {
            1
        } else if s == seq!['2'] {
            2
        } else {
            -1
        },
    }
}

/// Erase within the cursor's line. Mode 0 truncates the line just past the
/// cursor; mode 1 blanks every cell without resizing the line; mode 2 empties
/// the line and sends the cursor home; an unrecognized mode changes nothing.
pub open spec fn grid_erase_in_line(g: GridModel, n: Option<Seq<char>>) -> GridModel {
    let mode = erase_mode(n);
    let l = g.lines[g.row];
    if mode == 0 {
        let keep = if g.col + 1 < l.len() {
            g.col + 1
        } else {
            l.len() as int
        };
        GridModel { lines: g.lines.update(g.row, l.take(keep)), row: g.row, col: g.col }
    } else if mode == 1 {
        GridModel {
            lines: g.lines.update(g.row, Seq::new(l.len(), |k: int| None)),
            row: g.row,
            col: g.col,
        }
    } else if mode == 2 {
        GridModel { lines: g.lines.update(g.row, Seq::empty()), row: g.row, col: 0 }
    } else {
        g
    }
}

/// A decimal digit.
pub open spec fn is_digit(c: char) -> bool {
    '0' <= c && c <= '9'
}

/// The numeric value of a string of decimal digits; `None` when the string
/// is empty or holds anything but digits.
pub open spec fn digits_value(s: Seq<char>) -> Option<nat>
    decreases s.len(),
{
    if s.len() == 0 {
        None
    } else if !is_digit(s.last()) {
        None
    } else if s.len() == 1 {
        Some((s.last() as nat - '0' as nat) as nat)
    } else {
        match digits_value(s.drop_last()) {
            Some(v) => Some((v * 10 + (s.last() as nat - '0' as nat)) as nat),
            None => None,
        }
    }
}

/// The cells of `l` from `col` on replaced by the clusters of `gs`, one per
/// cell, the line first grown with blanks so that every target cell exists.
pub open spec fn place_graphemes(
    l: Seq<Option<Seq<char>>>,
    col: int,
    gs: Seq<Seq<char>>,
) -> Seq<Option<Seq<char>>> {
    let padded = pad_blanks(l, col + gs.len());
    Seq::new(
        padded.len(),
        |t: int|
            if col <= t < col + gs.len() {
                Some(gs[t - col])
            } else {
                padded[t]
            },
    )
}

/// Write text at the cursor: the text is joined onto whatever partial
/// grapheme the active cell already holds, the join is re-segmented into
/// clusters, and the clusters fill consecutive cells from the cursor on,
/// which comes to rest on the last of them.
pub open spec fn grid_write_text(g: GridModel, t: Seq<char>) -> GridModel {
    let l0 = pad_blanks(g.lines[g.row], g.col + 1);
    let prev = match l0[g.col] {
        Some(gr) => gr,
        None => Seq::empty(),
    };
    let gs = graphemes_of(prev + t);
    if gs.len() == 0 {
        GridModel { lines: g.lines.update(g.row, l0), row: g.row, col: g.col }
    } else {
        GridModel {
            lines: g.lines.update(g.row, place_graphemes(l0, g.col, gs)),
            row: g.row,
            col: g.col + gs.len() - 1,
        }
    }
}

/// The minimal supported command set: how one parsed node mutates the grid.
/// Anything outside the table leaves the grid untouched.
pub open spec fn apply_node(g: GridModel, n: NodeModel) -> GridModel {
    match n {
        NodeModel::Text(t) => grid_write_text(g, t),
        NodeModel::C0Control(c) => if c == '\x08' {
            grid_retreat_column(g)
        } else if c == '\x0A' {
            grid_advance_row(g)
        } else if c == '\x0D' {
            grid_home_column(g)
        } else {
            g
        },
        NodeModel::C1Control(c) => if c == '\x45' {
            grid_home_column(g)
        } else if c == '\x4D' {
            grid_retreat_row(g)
        } else {
            g
        },
        NodeModel::ControlSequence { parameter_bytes, intermediate_bytes, final_byte } => {
            if final_byte == 'C' && parameter_bytes is None && intermediate_bytes is None {
                grid_advance_column(g)
            } else if final_byte == 'K' {
                grid_erase_in_line(g, parameter_bytes)
            } else if final_byte == 'P' && parameter_bytes is Some && intermediate_bytes is None {
                grid_delete_characters(g, parameter_bytes->0)
            } else {
                g
            }
        },
        _ => g,
    }
}

/// Whether a character counts as whitespace when render trims line ends:
/// the Unicode White_Space property.
pub uninterp spec fn is_white(c: char) -> bool;

/// Relies on `char::is_whitespace`: whether the character has the Unicode
/// White_Space property, a function of the character alone. A space is
/// whitespace.
pub assume_specification[ char::is_whitespace ](c: char) -> (r: bool)
    ensures
        r == is_white(c),
        c == ' ' ==> r,
;

/// What one cell displays: its grapheme cluster, or a single space when
/// blank.
pub open spec fn cell_render(c: Option<Seq<char>>) -> Seq<char> {
    match c {
        Some(g) => g,
        None => seq![' '],
    }
}

/// What one line displays: the concatenation of what its cells display.
pub open spec fn line_render(l: Seq<Option<Seq<char>>>) -> Seq<char>
    decreases l.len(),
{
    if l.len() == 0 {
        Seq::empty()
    } else {
        line_render(l.drop_last()) + cell_render(l.last())
    }
}

/// `s` with every trailing whitespace character removed.
pub open spec fn trim_white_end(s: Seq<char>) -> Seq<char>
    decreases s.len(),
{
    if s.len() == 0 {
        s
    } else if is_white(s.last()) {
        trim_white_end(s.drop_last())
    } else {
        s
    }
}

/// Fold the lines into a display string: for each line in turn, append what
/// it displays, trim the accumulated text's trailing whitespace, and append
/// a newline.
pub open spec fn render_acc(acc: Seq<char>, lines: Seq<Seq<Option<Seq<char>>>>) -> Seq<char>
    decreases lines.len(),
{
    if lines.len() == 0 {
        acc
    } else {
        render_acc(trim_white_end(acc + line_render(lines.first())) + seq!['\n'], lines.drop_first())
    }
}

/// The display string of the last `max_lines` lines (all of them if fewer
/// exist): each line trimmed of trailing whitespace, joined by newlines,
/// without a trailing newline.
pub open spec fn render_spec(lines: Seq<Seq<Option<Seq<char>>>>, max_lines: int) -> Seq<char> {
    let skip = if lines.len() > max_lines {
        lines.len() - max_lines
    } else {
        0
    };
    let acc = render_acc(Seq::empty(), lines.skip(skip));
    if acc.len() == 0 {
        acc
    } else {
        acc.drop_last()
    }
}

/// Append the characters of `s` to `dst`.
pub(crate) fn push_str_chars(dst: &mut Vec<char>, s: &str)
    ensures
        final(dst)@ == old(dst)@ + s@,
{
    let len = s.unicode_len();
    let mut i: usize = 0;
    while i < len
        invariant
            i <= len == s@.len(),
            dst@ =~= old(dst)@ + s@.take(i as int),
        decreases len - i,
    {
        dst.push(s.get_char(i));
        i = i + 1;
        assert(dst@ =~= old(dst)@ + s@.take(i as int));
    }
    assert(old(dst)@ + s@.take(len as int) =~= old(dst)@ + s@);
}

/// Collect a vector of characters into a `String`.
pub(crate) fn chars_to_string(v: &Vec<char>) -> (r: String)
    ensures
        r@ == v@,
{
    let mut r = String::new();
    let len = v.len();
    let mut i: usize = 0;
    while i < len
        invariant
            i <= len == v@.len(),
            r@ =~= v@.take(i as int),
        decreases len - i,
    {
        r.push(v[i]);
        i = i + 1;
        assert(r@ =~= v@.take(i as int));
    }
    assert(v@.take(len as int) =~= v@);
    r
}

/// The view of an optional borrowed string.
pub open spec fn opt_str_view(n: Option<&str>) -> Option<Seq<char>> {
    match n {
        Some(s) => Some(s@),
        None => None,
    }
}

/// Every nonempty prefix of a string of digits is a string of digits, with
/// a value no larger than the whole.
proof fn lemma_digits_value_prefix(s: Seq<char>, i: int)
    requires
        1 <= i <= s.len(),
        digits_value(s) is Some,
    ensures
        digits_value(s.take(i)) matches Some(u) && u <= digits_value(s)->0,
    decreases s.len() - i,
{
    if i == s.len() {
        assert(s.take(i) =~= s);
    } else {
        lemma_digits_value_prefix(s, i + 1);
        assert(s.take(i + 1).drop_last() =~= s.take(i));
        assert(digits_value(s.take(i + 1)) is Some);
        if s.take(i + 1).len() == 1 {
        } else {
            assert(digits_value(s.take(i)) is Some);
        }
    }
}

/// Parse a string of decimal digits. `None` when the string is empty, holds
/// anything but digits, or names a value above `usize::MAX`.
fn parse_decimal(s: &str) -> (r: Option<usize>)
    ensures
        match digits_value(s@) {
            Some(v) => if v <= usize::MAX {
                r == Some(v as usize)
            } else {
                r is None
            },
            None => r is None,
        },
{
    let len = s.unicode_len();
    if len == 0 {
        return None;
    }
    let mut acc: usize = 0;
    let mut i: usize = 0;
    while i < len
        invariant
            0 < len == s@.len(),
            i <= len,
            i > 0 ==> digits_value(s@.take(i as int)) == Some(acc as nat),
            i == 0 ==> acc == 0,
        decreases len - i,
    {
        let c = s.get_char(i);
        if !('0' <= c && c <= '9') {
            proof {
                if digits_value(s@) is Some {
                    lemma_digits_value_prefix(s@, i + 1);
                    assert(s@.take(i + 1).last() == c);
                }
            }
            return None;
        }
        let d = (c as u32 - 0x30) as usize;
        let next = match acc.checked_mul(10) {
            Some(m) => m.checked_add(d),
            None => None,
        };
        proof {
            assert(s@.take(i + 1).drop_last() =~= s@.take(i as int));
            assert(s@.take(i + 1).last() == s@[i as int]);
        }
        match next {
            Some(v) => {
                acc = v;
            },
            None => {
                // the value of this prefix already exceeds the machine
                proof {
                    assert(digits_value(s@.take(i + 1)) matches Some(w) && w > usize::MAX);
                    if digits_value(s@) is Some {
                        lemma_digits_value_prefix(s@, i + 1);
                    }
                }
                return None;
            },
        }
        i = i + 1;
    }
    proof {
        assert(s@.take(len as int) =~= s@);
    }
    Some(acc)
}

/// Remove cells starting immediately after the cursor. `n` is the decimal
/// count of cells to remove; the removal is clipped to the end of the line;
/// an unparsable count (non-numeric, or too large for the machine) changes
/// nothing.
pub open spec fn grid_delete_characters(g: GridModel, n: Seq<char>) -> GridModel {
    match digits_value(n) {
        Some(v) => if v <= usize::MAX {
            let l = g.lines[g.row];
            let start = if g.col + 1 < l.len() {
                g.col + 1
            } else {
                l.len() as int
            };
            let end = if g.col + 1 + v < l.len() {
                g.col + 1 + v
            } else {
                l.len() as int
            };
            GridModel {
                lines: g.lines.update(g.row, l.take(start) + l.skip(end)),
                row: g.row,
                col: g.col,
            }
        } else {
            g
        },
        None => g,
    }
}

impl DataComponent {
    pub fn new() -> (r: DataComponent)
        ensures
            r@.wf(),
            r@.lines =~= seq![seq![None::<Seq<char>>]],
            r@.row == 0,
            r@.col == 0,
    {
        let mut cells: Vec<Cell> = Vec::new();
        cells.push(Cell { grapheme: None });
        let mut lines: Vec<Line> = Vec::new();
        lines.push(Line { cells });
        let r = DataComponent { lines, active_position: Position { row: 0, col: 0 } };
        assert(r@.lines[0] =~= seq![None::<Seq<char>>]);
        r
    }

    pub fn get_active_position(&self) -> (r: Position)
        ensures
            r.row == self@.row,
            r.col == self@.col,
    {
        self.active_position.clone()
    }

    fn get_active_line(&self) -> (r: &Line)
        requires
            self@.wf(),
        ensures
            r@ == self@.active_line(),
    {
        &self.lines[self.active_position.row]
    }

    fn get_active_line_mut(&mut self) -> (r: &mut Line)
        requires
            old(self)@.wf(),
        ensures
            *r == old(self).lines@[old(self)@.row],
            final(self)@.lines == old(self)@.lines.update(old(self)@.row, final(r)@),
            final(self)@.row == old(self)@.row,
            final(self)@.col == old(self)@.col,
    {
        let row = self.active_position.row;
        proof {
            assert(self@.lines[self@.row] == self.lines@[self@.row as int]@);
        }
        &mut self.lines[row]
    }

    /// A view of the cell under the cursor. The cell must exist: the cursor
    /// may also rest one past the end of its line, where there is no cell
    /// yet.
    pub fn get_active_cell(&self) -> (r: &Cell)
        requires
            self@.wf(),
            self@.col < self@.active_line().len(),
        ensures
            r@ == self@.active_line()[self@.col],
    {
        &self.get_active_line().cells[self.active_position.col]
    }

    /// Exclusive access to the cell under the cursor, which must exist.
    pub fn get_active_cell_mut(&mut self) -> (r: &mut Cell)
        requires
            old(self)@.wf(),
            old(self)@.col < old(self)@.active_line().len(),
        ensures
            r@ == old(self)@.active_line()[old(self)@.col],
            final(self)@.lines =~~= old(self)@.lines.update(
                old(self)@.row,
                old(self)@.active_line().update(old(self)@.col, final(r)@),
            ),
            final(self)@.row == old(self)@.row,
            final(self)@.col == old(self)@.col,
    {
        let row = self.active_position.row;
        let col = self.active_position.col;
        &mut self.lines[row].cells[col]
    }

    /// Move the active cell to the right, first adding blank cells so that
    /// the destination cell exists.
    pub fn activate_next_cell(&mut self)
        requires
            old(self)@.wf(),
        ensures
            final(self)@ == grid_advance_column(old(self)@),
            final(self)@.wf(),
    {
        let ghost gold = self@;
        let row = self.active_position.row;
        let col = self.active_position.col;
        // the line holds at most usize::MAX cells, so the new column fits
        while self.lines[row].cells.len() <= col
            invariant
                gold.wf(),
                row == gold.row,
                col == gold.col,
                self.lines@.len() == gold.lines.len(),
                self@.row == gold.row,
                self@.col == gold.col,
                forall|k: int|
                    0 <= k < gold.lines.len() && k != row ==> self@.lines[k] == gold.lines[k],
                self@.lines[row as int] =~= pad_blanks(
                    gold.lines[row as int],
                    self@.lines[row as int].len() as int,
                ),
                self@.lines[row as int].len() >= gold.lines[row as int].len(),
                self@.lines[row as int].len() <= gold.lines[row as int].len() || self@.lines[row
                    as int].len() <= gold.col + 1,
            decreases col + 2 - self.lines@[row as int]@.len(),
        {
            let line = &mut self.lines[row];
            line.cells.push(Cell { grapheme: None });
            proof {
                assert(self@.lines[row as int] =~= pad_blanks(
                    gold.lines[row as int],
                    self@.lines[row as int].len() as int,
                ));
            }
        }
        let new_col = col + 1;
        if self.lines[row].cells.len() <= new_col {
            let ghost before = self@.lines[row as int];
            let line = &mut self.lines[row];
            line.cells.push(Cell { grapheme: None });
            proof {
                assert(self@.lines[row as int] =~= before.push(None));
                assert(before.push(None) =~= pad_blanks(gold.lines[row as int], gold.col + 2));
            }
        }
        self.active_position.col = new_col;
        proof {
            assert(self@.lines[row as int] =~= pad_blanks(gold.lines[row as int], gold.col + 2));
            assert(self@.lines =~= grid_advance_column(gold).lines);
        }
    }

    /// Move the active cell to the left, unless already at the left-most
    /// cell of the line.
    pub fn activate_prev_cell(&mut self)
        requires
            old(self)@.wf(),
        ensures
            final(self)@ == grid_retreat_column(old(self)@),
            final(self)@.wf(),
    {
        if self.active_position.col > 0 {
            self.active_position.col = self.active_position.col - 1;
        }
    }

    /// Move the active cell to the beginning of the next line, making a new
    /// line if necessary.
    pub fn activate_next_line(&mut self)
        requires
            old(self)@.wf(),
        ensures
            final(self)@ == grid_advance_row(old(self)@),
            final(self)@.wf(),
    {
        let ghost gold = self@;
        let nlines = self.lines.len();
        let new_row = self.active_position.row + 1;
        if new_row == nlines {
            let mut cells: Vec<Cell> = Vec::new();
            cells.push(Cell { grapheme: None });
            self.lines.push(Line { cells });
            proof {
                assert(self@.lines[gold.lines.len() as int] =~= seq![None::<Seq<char>>]);
            }
        }
        self.active_position.row = new_row;
        self.active_position.col = 0;
        proof {
            assert(self@.lines =~= grid_advance_row(gold).lines);
        }
    }

    /// Move the active cell to the beginning of the previous line, or of the
    /// current line when already at the first one.
    pub fn activate_prev_line(&mut self)
        requires
            old(self)@.wf(),
        ensures
            final(self)@ == grid_retreat_row(old(self)@),
            final(self)@.wf(),
    {
        self.active_position.col = 0;
        if self.active_position.row > 0 {
            self.active_position.row = self.active_position.row - 1;
        }
    }

    /// Erase within the active line, per the parameter bytes of an EL
    /// control sequence: mode "0" or no parameter truncates the line just
    /// past the cursor, mode "1" blanks every cell without resizing the
    /// line, mode "2" empties the line and sends the cursor home, and an
    /// unrecognized parameter changes nothing.
    pub fn erase_in_line(&mut self, n: Option<&str>)
        requires
            old(self)@.wf(),
        ensures
            final(self)@ == grid_erase_in_line(old(self)@, opt_str_view(n)),
            final(self)@.wf(),
    {
        let ghost gold = self@;
        let mode: i32 = match n {
            None => 0,
            Some(s) => {
                if s.unicode_len() == 1 {
                    let c = s.get_char(0);
                    proof {
                        if c == '0' {
                            assert(s@ =~= seq!['0']);
                        } else if c == '1' {
                            assert(s@ =~= seq!['1']);
                        } else if c == '2' {
                            assert(s@ =~= seq!['2']);
                        } else {
                            assert(s@ != seq!['0'] && s@ != seq!['1'] && s@ != seq!['2']) by {
                                assert(seq!['0'][0] == '0' && seq!['1'][0] == '1' && seq!['2'][0]
                                    == '2');
                            }
                        }
                    }
                    if c == '0' {
                        0
                    } else if c == '1' {
                        1
                    } else if c == '2' {
                        2
                    } else {
                        -1
                    }
                } else {
                    proof {
                        assert(s@.len() != 1);
                        assert(seq!['0'].len() == 1 && seq!['1'].len() == 1 && seq!['2'].len()
                            == 1);
                    }
                    -1
                }
            },
        };
        proof {
            assert(mode == erase_mode(opt_str_view(n)) || (mode == -1 && erase_mode(
                opt_str_view(n),
            ) == -1));
        }
        let row = self.active_position.row;
        let col = self.active_position.col;
        if mode == 0 {
            let line = self.get_active_line_mut();
            if col < line.cells.len() {
                line.cells.truncate(col + 1);
            }
            proof {
                assert(self@.lines[row as int] =~= grid_erase_in_line(
                    gold,
                    opt_str_view(n),
                ).lines[row as int]);
                assert(self@.lines =~= grid_erase_in_line(gold, opt_str_view(n)).lines);
            }
        } else if mode == 1 {
            let line_len = self.lines[row].cells.len();
            let mut k: usize = 0;
            while k < line_len
                invariant
                    gold.wf(),
                    row == gold.row,
                    self@.row == gold.row,
                    self@.col == gold.col,
                    k <= line_len,
                    self@.lines.len() == gold.lines.len(),
                    line_len == gold.lines[row as int].len(),
                    self@.lines[row as int].len() == line_len,
                    forall|t: int|
                        0 <= t < gold.lines.len() && t != row ==> self@.lines[t] == gold.lines[t],
                    forall|t: int| 0 <= t < k ==> self@.lines[row as int][t] is None,
                    forall|t: int|
                        k <= t < line_len ==> self@.lines[row as int][t] == gold.lines[row
                            as int][t],
                decreases line_len - k,
            {
                let ghost mid = self@;
                let line = &mut self.lines[row];
                line.cells.set(k, Cell { grapheme: None });
                k = k + 1;
                proof {
                    assert((Cell { grapheme: None })@ is None);
                    assert(self@.lines[row as int] =~= mid.lines[row as int].update(
                        k - 1,
                        None,
                    ));
                    assert(forall|t: int|
                        0 <= t < k ==> #[trigger] self@.lines[row as int][t] is None);
                }
            }
            proof {
                assert(self@.lines[row as int] =~= Seq::new(
                    gold.lines[row as int].len(),
                    |t: int| None,
                ));
                assert(self@.lines =~= grid_erase_in_line(gold, opt_str_view(n)).lines);
            }
        } else if mode == 2 {
            let line = self.get_active_line_mut();
            line.cells.clear();
            self.active_position.col = 0;
            proof {
                assert(self@.lines[row as int] =~= Seq::<Option<Seq<char>>>::empty());
                assert(self@.lines =~= grid_erase_in_line(gold, opt_str_view(n)).lines);
            }
        }
    }

    /// Remove cells starting immediately after the cursor, shifting the
    /// remainder left. `n` is the decimal count of cells to remove, clipped
    /// to the end of the line; an unparsable count changes nothing.
    pub fn delete_character(&mut self, n: &str)
        requires
            old(self)@.wf(),
        ensures
            final(self)@ == grid_delete_characters(old(self)@, n@),
            final(self)@.wf(),
    {
        let ghost gold = self@;
        let count = match parse_decimal(n) {
            Some(count) => count,
            None => {
                return ;
            },
        };
        let row = self.active_position.row;
        let line_len = self.lines[row].cells.len();
        let ghost l0 = gold.lines[row as int];
        let col = self.active_position.col;
        if col >= line_len {
            // the cursor rests past the last cell: nothing follows it
            proof {
                let target = grid_delete_characters(gold, n@);
                assert(target.lines[row as int] =~= l0);
                assert(self@.lines =~= target.lines);
            }
            return ;
        }
        let start = col + 1;
        let mut removed: usize = 0;
        while removed < count && start < self.lines[row].cells.len()
            invariant
                gold.wf(),
                row == gold.row,
                start == gold.col + 1,
                self@.row == gold.row,
                self@.col == gold.col,
                removed <= count,
                self@.lines.len() == gold.lines.len(),
                forall|t: int|
                    0 <= t < gold.lines.len() && t != row ==> self@.lines[t] == gold.lines[t],
                l0 == gold.lines[row as int],
                start + removed <= l0.len() || removed == 0,
                self@.lines[row as int] =~= if start as int <= l0.len() {
                    l0.take(start as int) + l0.skip(start + removed)
                } else {
                    l0
                },
            decreases count - removed,
        {
            let ghost prev = self@.lines[row as int];
            let line = &mut self.lines[row];
            line.cells.remove(start);
            removed = removed + 1;
            proof {
                assert(self@.lines[row as int] =~= prev.remove(start as int));
                assert(prev =~= l0.take(start as int) + l0.skip(start + removed - 1));
                assert(prev.remove(start as int) =~= l0.take(start as int) + l0.skip(
                    start + removed,
                ));
            }
        }
        proof {
            let target = grid_delete_characters(gold, n@);
            assert(target.lines[row as int] =~= self@.lines[row as int]);
            assert(self@.lines =~= target.lines);
        }
    }

    /// Move the active cell to the beginning of the current line.
    pub fn activate_first_cell(&mut self)
        requires
            old(self)@.wf(),
        ensures
            final(self)@ == grid_home_column(old(self)@),
            final(self)@.wf(),
    {
        self.active_position.col = 0;
    }

    /// Produce a display string of the last `max_lines` lines (or all lines
    /// if fewer exist): each cell's grapheme or a blank space, with trailing
    /// whitespace trimmed per line.
    pub fn render(&self, max_lines: usize) -> (r: String)
        ensures
            r@ == render_spec(self@.lines, max_lines as int),
    {
        let ghost all = self@.lines;
        let total = self.lines.len();
        let skip = if total > max_lines {
            total - max_lines
        } else {
            0
        };
        let ghost window = all.skip(skip as int);
        let mut acc: Vec<char> = Vec::new();
        let mut li = skip;
        while li < total
            invariant
                skip <= li <= total,
                total == self@.lines.len(),
                all == self@.lines,
                window == all.skip(skip as int),
                render_acc(Seq::empty(), window) == render_acc(acc@, all.skip(li as int)),
            decreases total - li,
        {
            let ghost acc0 = acc@;
            let ghost l = all[li as int];
            let clen = self.lines[li].cells.len();
            proof {
                assert(self.lines@[li as int]@ == l);
                assert(clen == l.len());
                assert(acc@ =~= acc0 + line_render(l.take(0)));
            }
            let mut ci: usize = 0;
            while ci < clen
                invariant
                    ci <= clen,
                    li < total == self@.lines.len(),
                    all == self@.lines,
                    l == all[li as int],
                    clen == l.len(),
                    acc@ =~= acc0 + line_render(l.take(ci as int)),
                decreases clen - ci,
            {
                match &self.lines[li].cells[ci].grapheme {
                    Some(g) => {
                        push_str_chars(&mut acc, g.as_str());
                        proof {
                            assert(cell_render(l[ci as int]) == g@);
                        }
                    },
                    None => {
                        acc.push(' ');
                        proof {
                            assert(cell_render(l[ci as int]) =~= seq![' ']);
                        }
                    },
                }
                ci = ci + 1;
                proof {
                    assert(l.take(ci as int).drop_last() =~= l.take(ci - 1));
                    assert(l.take(ci as int).last() == l[ci - 1]);
                    assert(acc@ =~= acc0 + line_render(l.take(ci as int)));
                }
            }
            proof {
                assert(l.take(clen as int) =~= l);
            }
            let ghost full = acc@;
            while acc.len() > 0 && acc[acc.len() - 1].is_whitespace()
                invariant
                    trim_white_end(full) == trim_white_end(acc@),
                decreases acc@.len(),
            {
                acc.pop();
            }
            proof {
                assert(acc@ == trim_white_end(full));
            }
            acc.push('\n');
            li = li + 1;
            proof {
                assert(all.skip(li - 1).first() == l);
                assert(all.skip(li - 1).drop_first() =~= all.skip(li as int));
                assert(acc@ =~= trim_white_end(acc0 + line_render(l)) + seq!['\n']);
                assert(render_acc(acc0, all.skip(li - 1)) == render_acc(
                    acc@,
                    all.skip(li as int),
                ));
            }
        }
        proof {
            assert(all.skip(total as int) =~= Seq::empty());
            assert(acc@ == render_acc(Seq::empty(), window));
        }
        if acc.len() > 0 {
            acc.pop();
        }
        chars_to_string(&acc)
    }

    /// Write text at the cursor, grapheme cluster by grapheme cluster. The
    /// first cluster merges with any partial grapheme the active cell
    /// already holds — a cluster split across two text nodes is made whole
    /// here — and each following cluster occupies a freshly advanced cell.
    pub fn write_text(&mut self, text: &str)
        requires
            old(self)@.wf(),
        ensures
            final(self)@ == grid_write_text(old(self)@, text@),
            final(self)@.wf(),
    {
        let ghost gold = self@;
        let row = self.active_position.row;
        let col = self.active_position.col;
        // the cursor may rest one past the line end: materialize that cell
        if self.lines[row].cells.len() <= col {
            let line = &mut self.lines[row];
            line.cells.push(Cell { grapheme: None });
        }
        let ghost l0 = pad_blanks(gold.lines[row as int], gold.col + 1);
        proof {
            assert(self@.lines[row as int] =~= l0);
            assert(self@.lines =~= gold.lines.update(row as int, l0));
        }
        let prev: String = match &self.lines[row].cells[col].grapheme {
            Some(g) => g.clone(),
            None => String::new(),
        };
        proof {
            assert(prev@ == (match l0[col as int] {
                Some(gr) => gr,
                None => Seq::<char>::empty(),
            }));
        }
        let combined = prev.concat(text);
        let gs = split_graphemes(combined.as_str());
        let ghost gsv = graphemes_of(combined@);
        let count = gs.len();
        if count == 0 {
            return ;
        }
        proof {
            assert(self@.lines[row as int] =~= place_graphemes(l0, col as int, gsv.take(0)));
        }
        let mut k: usize = 0;
        while k < count
            invariant
                k <= count,
                count == gsv.len(),
                gs.deep_view() == gsv,
                gold.wf(),
                row == gold.row,
                col == gold.col,
                l0 == pad_blanks(gold.lines[row as int], gold.col + 1),
                l0.len() >= col + 1,
                self@.row == gold.row,
                self@.col == gold.col,
                self@.lines.len() == gold.lines.len(),
                forall|t: int|
                    0 <= t < gold.lines.len() && t != row ==> self@.lines[t] == gold.lines[t],
                self@.lines[row as int] =~= place_graphemes(l0, col as int, gsv.take(k as int)),
                self@.lines[row as int].len() >= col + k,
                self@.lines[row as int].len() >= col + 1,
            decreases count - k,
        {
            let ghost before = self@.lines[row as int];
            let cur_len = self.lines[row].cells.len();
            proof {
                assert(col + k <= cur_len);
            }
            let idx = col + k;
            if idx == cur_len {
                let line = &mut self.lines[row];
                line.cells.push(Cell { grapheme: None });
            }
            let cluster = gs[k].clone();
            proof {
                assert(cluster@ == gsv[k as int]);
            }
            let line = &mut self.lines[row];
            line.cells.set(idx, Cell { grapheme: Some(cluster) });
            k = k + 1;
            proof {
                assert(self@.lines[row as int] =~= place_graphemes(
                    l0,
                    col as int,
                    gsv.take(k as int),
                )) by {
                    let target = place_graphemes(l0, col as int, gsv.take(k as int));
                    let prior = place_graphemes(l0, col as int, gsv.take(k - 1));
                    let cur = self@.lines[row as int];
                    assert(before =~= prior);
                    assert(cur.len() == target.len());
                    assert forall|t: int| 0 <= t < cur.len() implies cur[t] == target[t] by {
                        if t == idx {
                            assert(cur[t] == Some(gsv[k - 1]));
                            assert(target[t] == Some(gsv.take(k as int)[t - col]));
                        } else if t < before.len() {
                            assert(cur[t] == before[t]);
                            assert(before[t] == prior[t]);
                        }
                    }
                }
            }
        }
        let last = count - 1;
        let final_len = self.lines[row].cells.len();
        proof {
            assert(self@.lines[row as int].len() >= col + count);
            assert(col + last < final_len);
        }
        self.active_position.col = col + last;
        proof {
            assert(gsv.take(count as int) =~= gsv);
            assert(self@.lines =~= grid_write_text(gold, text@).lines);
        }
    }

    /// Apply one parsed node to the grid, per the minimal supported command
    /// set: text is written at the cursor; backspace, line feed, carriage
    /// return, NEL, RI, CUF, EL and DCH move the cursor or erase; every
    /// other node leaves the grid untouched.
    pub fn write_node(&mut self, node: &Node)
        requires
            old(self)@.wf(),
        ensures
            final(self)@ == apply_node(old(self)@, node@),
            final(self)@.wf(),
    {
        match node {
            Node::Text(text) => self.write_text(text.as_str()),
            Node::C0Control(c) => {
                if *c == '\x08' {
                    self.activate_prev_cell();
                } else if *c == '\x0A' {
                    self.activate_next_line();
                } else if *c == '\x0D' {
                    self.activate_first_cell();
                }
            },
            Node::C1Control(c) => {
                if *c == '\x45' {
                    self.activate_first_cell();
                } else if *c == '\x4D' {
                    self.activate_prev_line();
                }
            },
            Node::ControlSequence { parameter_bytes, intermediate_bytes, final_byte } => {
                if *final_byte == 'C' && parameter_bytes.is_none() && intermediate_bytes.is_none()
                {
                    self.activate_next_cell();
                } else if *final_byte == 'K' {
                    let n = match parameter_bytes {
                        Some(p) => Some(p.as_str()),
                        None => None,
                    };
                    self.erase_in_line(n);
                } else if *final_byte == 'P' && intermediate_bytes.is_none() {
                    match parameter_bytes {
                        Some(p) => self.delete_character(p.as_str()),
                        None => {},
                    }
                }
            },
            _ => {},
        }
    }
}

} // verus!
