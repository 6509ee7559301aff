//! A rectangular grid of digit costs, read from text.
use vstd::prelude::*;
use vstd::string::StringSliceAdditionalSpecFns;

verus! {

/// The largest number of rows, and of columns, that a grid may have.
///
/// With at most this many cells on a side every route's cost fits in 64 bits.
pub const MAX_SIDE: usize = 65_535;

/// A cell position: column `x`, row `y`, the top-left cell being `(0, 0)`.
#[derive(Clone, Copy, Debug, PartialEq, Eq, Structural, Hash)]
pub struct Coordinate {
    pub x: i32,
    pub y: i32,
}

/// Why a text is not a grid.
#[derive(Clone, Copy, Debug, PartialEq, Eq, Structural)]
pub enum ParseError {
    /// Some line holds a byte that is not an ASCII decimal digit.
    InvalidDigit,
    /// Every byte is a digit, but two lines differ in length.
    RaggedRows,
    /// The grid is rectangular, but has more than `MAX_SIDE` rows or columns.
    TooLarge,
}

/// The mathematical content of a grid: its bounds and the cost of each cell.
pub struct GridView {
    pub width: int,
    pub height: int,
    pub costs: Map<(int, int), int>,
}

impl GridView {
    /// Whether `(x, y)` is a cell of the grid.
    pub open spec fn contains(self, x: int, y: int) -> bool {
        0 <= x < self.width && 0 <= y < self.height
    }

    /// The cost of entering cell `(x, y)`.
    pub open spec fn cost_at(self, x: int, y: int) -> int {
        self.costs[(x, y)]
    }

    /// Exactly the cells within the bounds have a cost, and each is a digit.
    pub open spec fn wf(self) -> bool {
        &&& 0 <= self.width <= MAX_SIDE
        &&& 0 <= self.height <= MAX_SIDE
        &&& forall|x: int, y: int| #[trigger] self.costs.contains_key((x, y)) <==> self.contains(x, y)
        &&& forall|x: int, y: int| self.contains(x, y) ==> 0 <= #[trigger] self.cost_at(x, y) <= 9
    }
}

/// Whether `b` is one of the bytes `'0'` to `'9'`.
pub open spec fn is_digit(b: u8) -> bool {
    48 <= b <= 57
}

/// The index of the first line feed in `text`, or its length if it has none.
pub open spec fn line_end(text: Seq<u8>) -> nat
    decreases text.len(),
{
    if text.len() == 0 || text[0] == 10 {
        0
    } else {
        1 + line_end(text.drop_first())
    }
}

/// `line` without its last byte where that is a carriage return.
pub open spec fn strip_cr(line: Seq<u8>) -> Seq<u8> {
    if line.len() > 0 && line.last() == 13 {
        line.drop_last()
    } else {
        line
    }
}

/// The lines of `text`. A line feed ends a line, and a carriage return right
/// before it belongs to the line ending. What follows the last line feed is a
/// line too, unless it is empty.
pub open spec fn lines_of(text: Seq<u8>) -> Seq<Seq<u8>>
    decreases text.len(),
{
    if text.len() == 0 {
        Seq::empty()
    } else {
        let k = line_end(text);
        if k >= text.len() {
            seq![text]
        } else {
            seq![strip_cr(text.subrange(0, k as int))] + lines_of(
                text.subrange(k as int + 1, text.len() as int),
            )
        }
    }
}

/// Every byte of every line is a digit.
pub open spec fn all_digits(lines: Seq<Seq<u8>>) -> bool {
    forall|i: int, j: int|
        0 <= i < lines.len() && 0 <= j < lines[i].len() ==> is_digit(#[trigger] lines[i][j])
}

/// The length of the first line; 0 where there is no line.
pub open spec fn first_width(lines: Seq<Seq<u8>>) -> int {
    if lines.len() == 0 {
        0
    } else {
        lines[0].len() as int
    }
}

/// Every line is as long as the first.
pub open spec fn rectangular(lines: Seq<Seq<u8>>) -> bool {
    forall|i: int| 0 <= i < lines.len() ==> (#[trigger] lines[i]).len() == first_width(lines)
}

/// What is wrong with `lines` as the rows of a grid, if anything. A byte that
/// is no digit is reported before rows of unequal length, and those before
/// the size.
pub open spec fn defect(lines: Seq<Seq<u8>>) -> Option<ParseError> {
    if !all_digits(lines) {
        Some(ParseError::InvalidDigit)
    } else if !rectangular(lines) {
        Some(ParseError::RaggedRows)
    } else if lines.len() > MAX_SIDE || first_width(lines) > MAX_SIDE {
        Some(ParseError::TooLarge)
    } else {
        None
    }
}

/// The grid whose rows are `lines`: the cost of cell `(x, y)` is the value of
/// the digit at column `x` of line `y`.
pub open spec fn grid_of(lines: Seq<Seq<u8>>) -> GridView {
    GridView {
        width: first_width(lines),
        height: lines.len() as int,
        costs: Map::new(
            |p: (int, int)| 0 <= p.0 < first_width(lines) && 0 <= p.1 < lines.len(),
            |p: (int, int)| lines[p.1][p.0] - 48,
        ),
    }
}

/// The views of the rows of `rows`.
pub open spec fn rows_view(rows: Seq<Vec<u8>>) -> Seq<Seq<u8>> {
    Seq::new(rows.len(), |i: int| rows[i]@)
}

/// Where no line feed stands before index `k` of `text`, and one stands at
/// `k` or the text ends there, the first line ends at `k`.
proof fn lemma_line_end(text: Seq<u8>, k: int)
    requires
        0 <= k <= text.len(),
        forall|i: int| 0 <= i < k ==> text[i] != 10,
        k == text.len() || text[k] == 10,
    ensures
        line_end(text) == k,
    decreases k,
{
    if k > 0 {
        lemma_line_end(text.drop_first(), k - 1);
    }
}

/// Splits `bytes` into its lines.
pub fn split_lines(bytes: &[u8]) -> (rows: Vec<Vec<u8>>)
    ensures
        rows_view(rows@) == lines_of(bytes@),
{
    let n = bytes.len();
    let mut rows: Vec<Vec<u8>> = Vec::new();
    let mut pos: usize = 0;
    assert(bytes@.subrange(0, n as int) =~= bytes@);
    assert(rows_view(rows@) + lines_of(bytes@) =~= lines_of(bytes@));
    while pos < n
        invariant
            n == bytes@.len(),
            pos <= n,
            lines_of(bytes@) == rows_view(rows@) + lines_of(bytes@.subrange(pos as int, n as int)),
        decreases n - pos,
    {
        let ghost rest = bytes@.subrange(pos as int, n as int);
        let mut line: Vec<u8> = Vec::new();
        let mut k: usize = pos;
        while k < n && bytes[k] != 10
            invariant
                n == bytes@.len(),
                pos <= k <= n,
                line@ == bytes@.subrange(pos as int, k as int),
                forall|i: int| pos <= i < k ==> bytes@[i] != 10,
            decreases n - k,
        {
            line.push(bytes[k]);
            k += 1;
            assert(line@ =~= bytes@.subrange(pos as int, k as int));
        }
        proof {
            lemma_line_end(rest, k - pos);
            assert(rest.subrange(0, k - pos) =~= line@);
        }
        let ghost before = rows_view(rows@);
        if k == n {
            proof {
                assert(rest =~= line@);
                assert(lines_of(rest) == seq![rest]);
                assert(lines_of(bytes@.subrange(n as int, n as int)) == Seq::<Seq<u8>>::empty());
            }
            rows.push(line);
            pos = n;
            assert(rows_view(rows@) =~= before + seq![rest]);
            assert(before + seq![rest] + Seq::<Seq<u8>>::empty() =~= before + seq![rest]);
        } else {
            let len = line.len();
            let ghost full = line@;
            if len > 0 && line[len - 1] == 13 {
                line.pop();
                assert(line@ =~= full.drop_last());
            }
            assert(line@ == strip_cr(full));
            let ghost stripped = line@;
            rows.push(line);
            pos = k + 1;
            proof {
                let tail = bytes@.subrange(pos as int, n as int);
                assert(rest.subrange(line_end(rest) as int + 1, rest.len() as int) =~= tail);
                assert(lines_of(rest) == seq![stripped] + lines_of(tail));
                assert(rows_view(rows@) =~= before + seq![stripped]);
                assert(before + (seq![stripped] + lines_of(tail)) =~= before + seq![stripped]
                    + lines_of(tail));
            }
        }
    }
    assert(lines_of(bytes@.subrange(n as int, n as int)) == Seq::<Seq<u8>>::empty());
    assert(rows_view(rows@) + Seq::<Seq<u8>>::empty() =~= rows_view(rows@));
    rows
}

/// The values of the digits of `line`, or `None` where some byte is no digit.
fn digit_values(line: &Vec<u8>) -> (r: Option<Vec<u8>>)
    ensures
        match r {
            Some(v) => {
                &&& v@.len() == line@.len()
                &&& forall|j: int| 0 <= j < line@.len() ==> is_digit(#[trigger] line@[j])
                &&& forall|j: int| 0 <= j < line@.len() ==> #[trigger] v@[j] == line@[j] - 48
            },
            None => exists|j: int| 0 <= j < line@.len() && !is_digit(#[trigger] line@[j]),
        },
{
    let mut values: Vec<u8> = Vec::new();
    let mut j: usize = 0;
    while j < line.len()
        invariant
            j <= line@.len(),
            values@.len() == j,
            forall|t: int| 0 <= t < j ==> is_digit(#[trigger] line@[t]),
            forall|t: int| 0 <= t < j ==> #[trigger] values@[t] == line@[t] - 48,
        decreases line@.len() - j,
    {
        let b = line[j];
        if b < 48 || b > 57 {
            return None;
        }
        values.push(b - 48);
        j += 1;
    }
    Some(values)
}

/// What reading `text` as a grid has to give: the grid of its lines where
/// they have no defect, and else their defect.
pub open spec fn is_parse_result(text: Seq<u8>, r: Result<GridView, ParseError>) -> bool {
    match r {
        Ok(g) => defect(lines_of(text)) is None && g == grid_of(lines_of(text)),
        Err(e) => defect(lines_of(text)) == Some(e),
    }
}

/// Reading one text twice gives the same bounds and the same cost for each
/// cell, or the same error.
pub proof fn lemma_parse_idempotent(
    text: Seq<u8>,
    a: Result<GridView, ParseError>,
    b: Result<GridView, ParseError>,
)
    requires
        is_parse_result(text, a),
        is_parse_result(text, b),
    ensures
        a == b,
{
}

/// An immutable grid of traversal costs.
pub struct GridModel {
    rows: Vec<Vec<u8>>,
    width: usize,
}

impl View for GridModel {
    type V = GridView;

    closed spec fn view(&self) -> GridView {
        GridView {
            width: self.width as int,
            height: self.rows@.len() as int,
            costs: Map::new(
                |p: (int, int)| 0 <= p.0 < self.width && 0 <= p.1 < self.rows@.len(),
                |p: (int, int)| self.rows@[p.1]@[p.0] as int,
            ),
        }
    }
}

/// The outcome of reading a grid, the grid taken by its view.
pub open spec fn viewed(r: Result<GridModel, ParseError>) -> Result<GridView, ParseError> {
    match r {
        Ok(g) => Ok(g@),
        Err(e) => Err(e),
    }
}

impl GridModel {
    #[verifier::type_invariant]
    spec fn inv(self) -> bool {
        &&& self.width <= MAX_SIDE
        &&& self.rows@.len() <= MAX_SIDE
        &&& forall|i: int| 0 <= i < self.rows@.len() ==> (#[trigger] self.rows@[i])@.len() == self.width
        &&& forall|i: int, j: int|
            0 <= i < self.rows@.len() && 0 <= j < self.width ==> #[trigger] self.rows@[i]@[j] <= 9
    }

    /// Reads a grid from `text`: one row per line, one digit per cell.
    ///
    /// Succeeds exactly where the lines of `text` have no `defect`, and
    /// otherwise reports that defect.
    pub fn parse(text: &str) -> (r: Result<GridModel, ParseError>)
        ensures
            is_parse_result(text.spec_bytes(), viewed(r)),
            r matches Ok(g) ==> g@.wf(),
    {
        let lines = split_lines(text.as_bytes());
        let ghost ls = lines_of(text.spec_bytes());
        let mut rows: Vec<Vec<u8>> = Vec::new();
        let mut i: usize = 0;
        while i < lines.len()
            invariant
                ls == lines_of(text.spec_bytes()),
                rows_view(lines@) == ls,
                i <= lines@.len(),
                rows@.len() == i,
                forall|a: int, b: int| 0 <= a < i && 0 <= b < ls[a].len() ==> is_digit(#[trigger] ls[a][b]),
                forall|a: int| 0 <= a < i ==> (#[trigger] rows@[a])@.len() == ls[a].len(),
                forall|a: int, b: int|
                    0 <= a < i && 0 <= b < ls[a].len() ==> #[trigger] rows@[a]@[b] == ls[a][b] - 48,
            decreases lines@.len() - i,
        {
            assert(ls[i as int] == lines@[i as int]@);
            match digit_values(&lines[i]) {
                None => {
                    proof {
                        let j = choose|j: int| 0 <= j < ls[i as int].len() && !is_digit(#[trigger] ls[i as int][j]);
                        assert(0 <= i < ls.len());
                        assert(!is_digit(ls[i as int][j]));
                        assert(!all_digits(ls));
                    }
                    return Err(ParseError::InvalidDigit);
                },
                Some(values) => {
                    rows.push(values);
                },
            }
            i += 1;
        }
        assert(ls.len() == lines@.len());
        assert(all_digits(ls));
        let height = rows.len();
        let width = if height == 0 {
            0
        } else {
            rows[0].len()
        };
        assert(width == first_width(ls));
        let mut i: usize = 0;
        while i < height
            invariant
                i <= height,
                height == rows@.len(),
                height == ls.len(),
                width == first_width(ls),
                ls == lines_of(text.spec_bytes()),
                all_digits(ls),
                forall|a: int| 0 <= a < height ==> (#[trigger] rows@[a])@.len() == ls[a].len(),
                forall|a: int| 0 <= a < i ==> (#[trigger] ls[a]).len() == width,
            decreases height - i,
        {
            if rows[i].len() != width {
                assert(ls[i as int].len() != first_width(ls));
                assert(!rectangular(ls));
                return Err(ParseError::RaggedRows);
            }
            i += 1;
        }
        assert(rectangular(ls));
        if height > MAX_SIDE || width > MAX_SIDE {
            return Err(ParseError::TooLarge);
        }
        let grid = GridModel { rows, width };
        assert(grid@.costs =~= grid_of(ls).costs);
        Ok(grid)
    }

    /// The number of columns.
    pub fn width(&self) -> (w: usize)
        ensures
            w == self@.width,
            self@.wf(),
    {
        proof {
            use_type_invariant(self);
        }
        self.width
    }

    /// The number of rows.
    pub fn height(&self) -> (h: usize)
        ensures
            h == self@.height,
            self@.wf(),
    {
        proof {
            use_type_invariant(self);
        }
        self.rows.len()
    }

    /// Whether `position` is a cell of the grid.
    pub fn contains(&self, position: Coordinate) -> (b: bool)
        ensures
            b == self@.contains(position.x as int, position.y as int),
    {
        proof {
            use_type_invariant(self);
        }
        position.x >= 0 && position.y >= 0 && (position.x as usize) < self.width && (
        position.y as usize) < self.rows.len()
    }

    /// The cost of entering `position`, or `None` where it lies outside the grid.
    pub fn cost(&self, position: Coordinate) -> (c: Option<u32>)
        ensures
            self@.contains(position.x as int, position.y as int) ==> c == Some(
                self@.cost_at(position.x as int, position.y as int) as u32,
            ),
            !self@.contains(position.x as int, position.y as int) ==> c.is_none(),
            self@.wf(),
    {
        proof {
            use_type_invariant(self);
        }
        if self.contains(position) {
            let row = &self.rows[position.y as usize];
            Some(row[position.x as usize] as u32)
        } else {
            None
        }
    }

    /// The last cell of the last row; `(-1, -1)` for a grid without cells in
    /// either direction.
    pub fn bottom_right(&self) -> (c: Coordinate)
        ensures
            c.x == self@.width - 1,
            c.y == self@.height - 1,
    {
        proof {
            use_type_invariant(self);
        }
        Coordinate { x: self.width as i32 - 1, y: self.rows.len() as i32 - 1 }
    }
}

} // verus!
