//! The level file format.
//!
//! A level is a header line `<width>:<height>` followed by up to `height`
//! rows, each a comma-separated list of exactly `width` unsigned tile codes.
//! Rows that the text does not supply are filled with zeros; lines after the
//! last row are ignored.

use vstd::prelude::*;
use crate::text::{
    chars_of, decimal_text, digit_char, field_end, field_len, int_fields, lemma_decimal_round_trip,
    lemma_field_len_before, lemma_field_len_bound, parse_u32, parse_u32_at, read_int_fields, trim,
    trim_bounds,
};

verus! {

/// Why a level text was refused.
#[derive(Debug, Clone, Copy, PartialEq, Eq, Structural)]
pub enum ParseError {
    /// The first line is not exactly two unsigned integers separated by `:`.
    InvalidHeader,
    /// Data row `row_index` (counted from 0) does not hold `width` integers.
    RowWidthMismatch { row_index: u32 },
}

/// A parsed level: `width * height` tile codes in row-major order.
#[derive(Debug)]
pub struct LevelGrid {
    cells: Vec<u32>,
    width: u32,
    height: u32,
}

impl View for LevelGrid {
    type V = (Seq<u32>, u32, u32);

    closed spec fn view(&self) -> (Seq<u32>, u32, u32) {
        (self.cells@, self.width, self.height)
    }
}

/// The text before the first line break.
pub open spec fn first_line(s: Seq<char>) -> Seq<char> {
    s.subrange(0, field_len(s, '\n') as int)
}

/// The text after the first line break (empty if there is none).
pub open spec fn after_first_line(s: Seq<char>) -> Seq<char> {
    let k = field_len(s, '\n');
    if k < s.len() {
        s.subrange(k + 1 as int, s.len() as int)
    } else {
        Seq::empty()
    }
}

/// A row of `width` empty tiles.
pub open spec fn zero_row(width: u32) -> Seq<u32> {
    Seq::new(width as nat, |_i: int| 0u32)
}

/// `cells` followed by the cells of `r`, or the error of `r`.
pub open spec fn prepend(cells: Seq<u32>, r: Result<Seq<u32>, ParseError>) -> Result<
    Seq<u32>,
    ParseError,
> {
    match r {
        Ok(rest) => Ok(cells + rest),
        Err(e) => Err(e),
    }
}

/// The cells of the `left` rows that `s` holds, numbered from `row`: one line
/// of `s` per row while `s` lasts, then rows of zeros.
pub open spec fn data_rows(s: Seq<char>, width: u32, left: nat, row: nat) -> Result<
    Seq<u32>,
    ParseError,
>
    decreases left,
{
    if left == 0 {
        Ok(Seq::empty())
    } else if s.len() == 0 {
        prepend(zero_row(width), data_rows(s, width, (left - 1) as nat, row + 1))
    } else {
        let vals = int_fields(first_line(s), ',');
        if vals.len() != width {
            Err(ParseError::RowWidthMismatch { row_index: row as u32 })
        } else {
            prepend(vals, data_rows(after_first_line(s), width, (left - 1) as nat, row + 1))
        }
    }
}

/// The width and height that a header line declares: it must split at `:`
/// into exactly two fields, each of which trims to a `u32` numeral.
pub open spec fn header_dims(line: Seq<char>) -> Option<(u32, u32)> {
    let k = field_len(line, ':');
    let rest = line.subrange(k + 1 as int, line.len() as int);
    if k >= line.len() || field_len(rest, ':') < rest.len() {
        None
    } else {
        match (parse_u32(trim(line.subrange(0, k as int))), parse_u32(trim(rest))) {
            (Some(w), Some(h)) => Some((w, h)),
            _ => None,
        }
    }
}

/// The level that the text `s` describes: its cells, width and height.
pub open spec fn parse_level(s: Seq<char>) -> Result<(Seq<u32>, u32, u32), ParseError> {
    match header_dims(first_line(s)) {
        None => Err(ParseError::InvalidHeader),
        Some((width, height)) => match data_rows(after_first_line(s), width, height as nat, 0) {
            Ok(cells) => Ok((cells, width, height)),
            Err(e) => Err(e),
        },
    }
}

/// The width and height that the header `chars[0..end]` declares.
fn read_header(chars: &Vec<char>, end: usize) -> (r: Option<(u32, u32)>)
    requires
        end <= chars@.len(),
    ensures
        r == header_dims(chars@.subrange(0, end as int)),
{
    let ghost line = chars@.subrange(0, end as int);
    let k1 = field_end(chars, 0, end, ':');
    if k1 == end {
        return None;
    }
    let k2 = field_end(chars, k1 + 1, end, ':');
    proof {
        assert(line.subrange(0, k1 as int) =~= chars@.subrange(0, k1 as int));
        assert(line.subrange(k1 + 1 as int, line.len() as int) =~= chars@.subrange(
            k1 + 1 as int,
            end as int,
        ));
    }
    if k2 < end {
        return None;
    }
    let (a, b) = trim_bounds(chars, 0, k1);
    let w = parse_u32_at(chars, a, b);
    let (c, d) = trim_bounds(chars, k1 + 1, end);
    let h = parse_u32_at(chars, c, d);
    match (w, h) {
        (Some(w), Some(h)) => Some((w, h)),
        _ => None,
    }
}

proof fn lemma_prepend_empty(r: Result<Seq<u32>, ParseError>)
    ensures
        prepend(Seq::empty(), r) == r,
{
    if let Ok(c) = r {
        assert(Seq::<u32>::empty() + c =~= c);
    }
}

proof fn lemma_prepend_prepend(a: Seq<u32>, b: Seq<u32>, r: Result<Seq<u32>, ParseError>)
    ensures
        prepend(a, prepend(b, r)) == prepend(a + b, r),
{
    if let Ok(c) = r {
        assert(a + (b + c) =~= (a + b) + c);
    }
}

/// Reading `left` rows of `width` cells, when it succeeds, gives
/// `width * left` cells.
pub proof fn lemma_data_rows_len(s: Seq<char>, width: u32, left: nat, row: nat)
    ensures
        data_rows(s, width, left, row) matches Ok(cells) ==> cells.len() == width * left,
    decreases left,
{
    if left == 0 {
        assert(width * 0 == 0);
    } else {
        let l1 = (left - 1) as nat;
        assert(width * l1 + width == width * left) by (nonlinear_arith)
            requires
                l1 + 1 == left,
        ;
        let next = if s.len() == 0 {
            s
        } else {
            after_first_line(s)
        };
        lemma_data_rows_len(next, width, l1, row + 1);
    }
}

/// Parses a level text.
pub fn parse(text: &str) -> (r: Result<LevelGrid, ParseError>)
    ensures
        r is Ok <==> parse_level(text@) is Ok,
        r matches Ok(g) ==> parse_level(text@) == Ok::<(Seq<u32>, u32, u32), ParseError>(g@) && g.wf(),
        r matches Err(e) ==> parse_level(text@) == Err::<(Seq<u32>, u32, u32), ParseError>(e),
{
    let chars = chars_of(text);
    let n = chars.len();
    let k0 = field_end(&chars, 0, n, '\n');
    proof {
        assert(chars@.subrange(0, n as int) =~= chars@);
        lemma_field_len_bound(chars@, '\n');
        assert(first_line(chars@) =~= chars@.subrange(0, k0 as int));
    }
    let (width, height) = match read_header(&chars, k0) {
        Some(dims) => dims,
        None => {
            return Err(ParseError::InvalidHeader);
        },
    };
    let mut pos: usize = if k0 < n {
        k0 + 1
    } else {
        n
    };
    let ghost rest0 = after_first_line(chars@);
    proof {
        assert(chars@.subrange(pos as int, n as int) =~= rest0);
        lemma_prepend_empty(data_rows(rest0, width, height as nat, 0));
    }
    let mut cells: Vec<u32> = Vec::new();
    let mut row: u32 = 0;
    while row < height
        invariant
            chars@ == text@,
            n == chars@.len(),
            rest0 == after_first_line(text@),
            header_dims(first_line(text@)) == Some((width, height)),
            pos <= n,
            row <= height,
            data_rows(rest0, width, height as nat, 0) == prepend(
                cells@,
                data_rows(chars@.subrange(pos as int, n as int), width, (height - row) as nat, row as nat),
            ),
        decreases height - row,
    {
        let ghost cur = chars@.subrange(pos as int, n as int);
        let mut vals: Vec<u32> = Vec::new();
        if pos == n {
            let mut j: u32 = 0;
            while j < width
                invariant
                    j <= width,
                    vals@ == Seq::new(j as nat, |_i: int| 0u32),
                decreases width - j,
            {
                vals.push(0);
                j += 1;
                assert(vals@ =~= Seq::new(j as nat, |_i: int| 0u32));
            }
        } else {
            let k = field_end(&chars, pos, n, '\n');
            vals = read_int_fields(&chars, pos, k, ',');
            proof {
                assert(first_line(cur) =~= chars@.subrange(pos as int, k as int));
            }
            if vals.len() != width as usize {
                return Err(ParseError::RowWidthMismatch { row_index: row });
            }
            pos = if k < n {
                k + 1
            } else {
                n
            };
            proof {
                assert(after_first_line(cur) =~= chars@.subrange(pos as int, n as int));
            }
        }
        proof {
            lemma_prepend_prepend(
                cells@,
                vals@,
                data_rows(
                    chars@.subrange(pos as int, n as int),
                    width,
                    (height - row - 1) as nat,
                    (row + 1) as nat,
                ),
            );
        }
        cells.append(&mut vals);
        row += 1;
    }
    proof {
        assert(cells@ + Seq::<u32>::empty() =~= cells@);
        assert(data_rows(rest0, width, height as nat, 0) == Ok::<Seq<u32>, ParseError>(cells@));
        lemma_data_rows_len(rest0, width, height as nat, 0);
        assert(parse_level(text@) == Ok::<(Seq<u32>, u32, u32), ParseError>((cells@, width, height)));
    }
    Ok(LevelGrid { cells, width, height })
}

impl LevelGrid {
    /// The grid holds exactly `width * height` cells.
    pub open spec fn wf(&self) -> bool {
        self@.0.len() == self@.1 * self@.2
    }

    /// The tile codes, row by row.
    pub fn cells(&self) -> (r: &Vec<u32>)
        ensures
            r@ == self@.0,
    {
        &self.cells
    }

    /// The number of tiles in a row.
    pub fn width(&self) -> (r: u32)
        ensures
            r == self@.1,
    {
        self.width
    }

    /// The number of rows.
    pub fn height(&self) -> (r: u32)
        ensures
            r == self@.2,
    {
        self.height
    }
}

/// One row as text: each value in decimal, followed by a comma.
pub open spec fn row_text(vals: Seq<u32>) -> Seq<char>
    decreases vals.len(),
{
    if vals.len() == 0 {
        Seq::empty()
    } else {
        decimal_text(vals[0] as nat) + seq![','] + row_text(vals.drop_first())
    }
}

/// `left` rows of `width` cells each, one line per row.
pub open spec fn rows_text(cells: Seq<u32>, width: u32, left: nat) -> Seq<char>
    decreases left,
{
    if left == 0 {
        Seq::empty()
    } else {
        row_text(cells.take(width as int)) + seq!['\n'] + rows_text(
            cells.skip(width as int),
            width,
            (left - 1) as nat,
        )
    }
}

/// The text of a level: the header line `<width>:<height>`, then its rows.
pub open spec fn level_text(cells: Seq<u32>, width: u32, height: u32) -> Seq<char> {
    header_text(width, height) + seq!['\n'] + rows_text(cells, width, height as nat)
}

proof fn lemma_row_text(vals: Seq<u32>)
    ensures
        int_fields(row_text(vals), ',') == vals,
        forall|i: int| 0 <= i < row_text(vals).len() ==> #[trigger] row_text(vals)[i] != '\n',
    decreases vals.len(),
{
    if vals.len() > 0 {
        let d = decimal_text(vals[0] as nat);
        let tail = row_text(vals.drop_first());
        let s = row_text(vals);
        lemma_decimal_round_trip(vals[0]);
        lemma_row_text(vals.drop_first());
        lemma_field_len_before(d, ',', tail);
        assert(s.subrange(0, d.len() as int) =~= d);
        assert(s.subrange(d.len() + 1 as int, s.len() as int) =~= tail);
        assert(vals =~= seq![vals[0]] + vals.drop_first());
        assert forall|i: int| 0 <= i < s.len() implies #[trigger] s[i] != '\n' by {
            if i < d.len() {
                assert(s[i] == d[i]);
            } else if i > d.len() {
                assert(s[i] == tail[i - d.len() - 1]);
            }
        }
    } else {
        let e = Seq::<char>::empty();
        assert(e.subrange(0, 0) =~= e);
    }
}

proof fn lemma_rows_text(cells: Seq<u32>, width: u32, left: nat, row: nat)
    requires
        cells.len() == width * left,
    ensures
        data_rows(rows_text(cells, width, left), width, left, row) == Ok::<Seq<u32>, ParseError>(
            cells,
        ),
    decreases left,
{
    if left == 0 {
        assert(cells =~= Seq::<u32>::empty());
    } else {
        let l1 = (left - 1) as nat;
        assert(width * l1 + width == width * left) by (nonlinear_arith)
            requires
                l1 + 1 == left,
        ;
        let line = row_text(cells.take(width as int));
        let rest = rows_text(cells.skip(width as int), width, l1);
        let s = rows_text(cells, width, left);
        lemma_row_text(cells.take(width as int));
        lemma_field_len_before(line, '\n', rest);
        lemma_rows_text(cells.skip(width as int), width, l1, row + 1);
        assert(first_line(s) =~= line);
        assert(after_first_line(s) =~= rest);
        assert(cells.take(width as int) + cells.skip(width as int) =~= cells);
    }
}

/// Every text that parses gives `width * height` cells.
pub proof fn lemma_parsed_cells_len(s: Seq<char>)
    ensures
        parse_level(s) matches Ok((cells, width, height)) ==> cells.len() == width * height,
{
    if let Some((width, height)) = header_dims(first_line(s)) {
        lemma_data_rows_len(after_first_line(s), width, height as nat, 0);
    }
}

/// The header line `<width>:<height>`.
pub open spec fn header_text(width: u32, height: u32) -> Seq<char> {
    decimal_text(width as nat) + seq![':'] + decimal_text(height as nat)
}

proof fn lemma_header_text(width: u32, height: u32)
    ensures
        header_dims(header_text(width, height)) == Some((width, height)),
        forall|i: int|
            0 <= i < header_text(width, height).len() ==> #[trigger] header_text(width, height)[i]
                != '\n',
{
    let w = decimal_text(width as nat);
    let h = decimal_text(height as nat);
    let header = header_text(width, height);
    lemma_decimal_round_trip(width);
    lemma_decimal_round_trip(height);
    lemma_field_len_before(w, ':', h);
    lemma_field_len_before(h, ':', Seq::empty());
    assert forall|i: int| 0 <= i < header.len() implies header[i] != '\n' by {
        if i < w.len() {
            assert(header[i] == w[i]);
        } else if i > w.len() {
            assert(header[i] == h[i - w.len() - 1]);
        }
    }
    assert(header.subrange(0, w.len() as int) =~= w);
    assert(header.subrange(w.len() + 1 as int, header.len() as int) =~= h);
    assert(h.subrange(0, h.len() as int) =~= h);
}

/// Writing a grid of `width * height` cells as text and parsing that text
/// gives back the same cells, width and height.
pub proof fn lemma_round_trip(cells: Seq<u32>, width: u32, height: u32)
    requires
        cells.len() == width * height,
    ensures
        parse_level(level_text(cells, width, height)) == Ok::<(Seq<u32>, u32, u32), ParseError>(
            (cells, width, height),
        ),
{
    let header = header_text(width, height);
    let rows = rows_text(cells, width, height as nat);
    let s = level_text(cells, width, height);
    lemma_header_text(width, height);
    lemma_field_len_before(header, '\n', rows);
    assert(first_line(s) =~= header);
    assert(after_first_line(s) =~= rows);
    lemma_rows_text(cells, width, height as nat, 0);
}

/// A well-formed level text, with `height` rows of `width` integers each,
/// always parses, and to `width * height` cells.
pub proof fn lemma_well_formed_text_parses(cells: Seq<u32>, width: u32, height: u32)
    requires
        cells.len() == width * height,
    ensures
        parse_level(level_text(cells, width, height)) matches Ok((parsed, w, h)) && w == width
            && h == height && parsed.len() == width * height,
{
    lemma_round_trip(cells, width, height);
}

/// The digit character of `d`, as text.
fn digit_str(d: u32) -> (r: &'static str)
    requires
        d < 10,
    ensures
        r@ == seq![digit_char(d as nat)],
{
    if d == 0 {
        proof { reveal_strlit("0"); }
        "0"
    } else if d == 1 {
        proof { reveal_strlit("1"); }
        "1"
    } else if d == 2 {
        proof { reveal_strlit("2"); }
        "2"
    } else if d == 3 {
        proof { reveal_strlit("3"); }
        "3"
    } else if d == 4 {
        proof { reveal_strlit("4"); }
        "4"
    } else if d == 5 {
        proof { reveal_strlit("5"); }
        "5"
    } else if d == 6 {
        proof { reveal_strlit("6"); }
        "6"
    } else if d == 7 {
        proof { reveal_strlit("7"); }
        "7"
    } else if d == 8 {
        proof { reveal_strlit("8"); }
        "8"
    } else {
        proof { reveal_strlit("9"); }
        "9"
    }
}

/// Appends the decimal numeral of `v` to `out`.
fn push_decimal(out: &mut String, v: u32)
    ensures
        final(out)@ == old(out)@ + decimal_text(v as nat),
    decreases v,
{
    if v >= 10 {
        push_decimal(out, v / 10);
    }
    out.append(digit_str(v % 10));
    proof {
        if v < 10 {
            assert(v % 10 == v);
        }
        assert(final(out)@ =~= old(out)@ + decimal_text(v as nat));
    }
}

impl LevelGrid {
    /// The level as text: the header line, then one line per row, each value
    /// followed by a comma.
    pub fn to_text(&self) -> (r: String)
        requires
            self.wf(),
        ensures
            r@ == level_text(self@.0, self@.1, self@.2),
    {
        let ghost full = level_text(self@.0, self@.1, self@.2);
        let width = self.width;
        let height = self.height;
        let mut out = String::new();
        push_decimal(&mut out, width);
        proof { reveal_strlit(":"); reveal_strlit("\n"); reveal_strlit(","); }
        out.append(":");
        push_decimal(&mut out, height);
        out.append("\n");
        let mut row: u32 = 0;
        let mut idx: usize = 0;
        assert(self.cells@.skip(0) =~= self.cells@);
        assert(out@ + rows_text(self.cells@.skip(0), width, height as nat) =~= full);
        while row < height
            invariant
                self.wf(),
                full == level_text(self@.0, self@.1, self@.2),
                width == self@.1,
                height == self@.2,
                row <= height,
                idx == row * width,
                out@ + rows_text(self.cells@.skip(idx as int), width, (height - row) as nat) == full,
            decreases height - row,
        {
            assert(idx + width <= self.cells@.len() && idx + width == (row + 1) * width) by (nonlinear_arith)
                requires
                    idx == row * width,
                    row < height,
                    self.cells@.len() == width * height,
            ;
            let len = self.cells.len();
            let row_end = idx + width as usize;
            let ghost tail = rows_text(self.cells@.skip(row_end as int), width, (height - row - 1) as nat);
            proof {
                assert(self.cells@.skip(idx as int).take(width as int) =~= self.cells@.subrange(idx as int, row_end as int));
                assert(self.cells@.skip(idx as int).skip(width as int) =~= self.cells@.skip(row_end as int));
            }
            let mut j = idx;
            while j < row_end
                invariant
                    idx <= j <= row_end <= self.cells@.len(),
                    out@ + row_text(self.cells@.subrange(j as int, row_end as int)) + seq!['\n'] + tail == full,
                decreases row_end - j,
            {
                let ghost before = out@;
                push_decimal(&mut out, self.cells[j]);
                out.append(",");
                proof {
                    reveal_strlit(",");
                    let vals = self.cells@.subrange(j as int, row_end as int);
                    assert(vals.drop_first() =~= self.cells@.subrange(j + 1, row_end as int));
                    assert(out@ + row_text(vals.drop_first()) =~= before + row_text(vals));
                }
                j += 1;
            }
            proof {
                assert(self.cells@.subrange(row_end as int, row_end as int) =~= Seq::<u32>::empty());
            }
            out.append("\n");
            proof {
                reveal_strlit("\n");
                assert(out@ + tail =~= full);
            }
            idx = row_end;
            row += 1;
        }
        proof {
            assert(out@ + Seq::<char>::empty() =~= out@);
        }
        out
    }
}

/// Parses a level text into its cells and its `(width, height)`.
pub fn read_from_string(string: &str) -> (r: Result<(Vec<u32>, (u32, u32)), ParseError>)
    ensures
        r matches Ok((cells, (w, h))) ==> parse_level(string@) == Ok::<
            (Seq<u32>, u32, u32),
            ParseError,
        >((cells@, w, h)),
        r matches Err(e) ==> parse_level(string@) == Err::<(Seq<u32>, u32, u32), ParseError>(e),
{
    match parse(string) {
        Ok(g) => Ok((g.cells, (g.width, g.height))),
        Err(e) => Err(e),
    }
}

/// Rows of values as lines of text, each row as `row_text` writes it.
pub open spec fn row_lines(rows: Seq<Seq<u32>>) -> Seq<char>
    decreases rows.len(),
{
    if rows.len() == 0 {
        Seq::empty()
    } else {
        row_text(rows[0]) + seq!['\n'] + row_lines(rows.drop_first())
    }
}

proof fn lemma_data_rows_mismatch(rows: Seq<Seq<u32>>, width: u32, left: nat, row: nat, bad: nat)
    requires
        bad < rows.len(),
        bad < left,
        forall|i: int| 0 <= i < bad ==> (#[trigger] rows[i]).len() == width,
        rows[bad as int].len() != width,
    ensures
        data_rows(row_lines(rows), width, left, row) == Err::<Seq<u32>, ParseError>(
            ParseError::RowWidthMismatch { row_index: (row + bad) as u32 },
        ),
    decreases bad,
{
    let s = row_lines(rows);
    let line = row_text(rows[0]);
    let rest = row_lines(rows.drop_first());
    lemma_row_text(rows[0]);
    lemma_field_len_before(line, '\n', rest);
    assert(first_line(s) =~= line);
    assert(after_first_line(s) =~= rest);
    if bad > 0 {
        assert forall|i: int| 0 <= i < bad - 1 implies (#[trigger] rows.drop_first()[i]).len()
            == width by {
            assert(rows.drop_first()[i] == rows[i + 1]);
        }
        lemma_data_rows_mismatch(rows.drop_first(), width, (left - 1) as nat, row + 1, (bad - 1) as nat);
    }
}

/// In a level whose data rows are written out, the first row that does not
/// hold `width` values is reported, by its index counted from 0.
pub proof fn lemma_row_width_mismatch(rows: Seq<Seq<u32>>, width: u32, height: u32, bad: nat)
    requires
        bad < rows.len(),
        bad < height,
        forall|i: int| 0 <= i < bad ==> (#[trigger] rows[i]).len() == width,
        rows[bad as int].len() != width,
    ensures
        parse_level(header_text(width, height) + seq!['\n'] + row_lines(rows)) == Err::<
            (Seq<u32>, u32, u32),
            ParseError,
        >(ParseError::RowWidthMismatch { row_index: bad as u32 }),
{
    let header = header_text(width, height);
    let body = row_lines(rows);
    let s = header + seq!['\n'] + body;
    lemma_header_text(width, height);
    lemma_field_len_before(header, '\n', body);
    assert(first_line(s) =~= header);
    assert(after_first_line(s) =~= body);
    lemma_data_rows_mismatch(rows, width, height as nat, 0, bad);
}

/// The values of `rows`, one row after another.
pub open spec fn flatten_rows(rows: Seq<Seq<u32>>) -> Seq<u32>
    decreases rows.len(),
{
    if rows.len() == 0 {
        Seq::empty()
    } else {
        rows[0] + flatten_rows(rows.drop_first())
    }
}

/// `n` empty tiles.
pub open spec fn zeros(n: int) -> Seq<u32> {
    Seq::new(n as nat, |_i: int| 0u32)
}

proof fn lemma_data_rows_padding(width: u32, left: nat, row: nat)
    ensures
        data_rows(Seq::empty(), width, left, row) == Ok::<Seq<u32>, ParseError>(
            zeros(width * left),
        ),
    decreases left,
{
    if left == 0 {
        assert(zeros(width * 0) =~= Seq::<u32>::empty());
    } else {
        let l1 = (left - 1) as nat;
        assert(width * l1 + width == width * left) by (nonlinear_arith)
            requires
                l1 + 1 == left,
        ;
        lemma_data_rows_padding(width, l1, row + 1);
        assert(zero_row(width) + zeros(width * l1) =~= zeros(width * left));
    }
}

proof fn lemma_data_rows_short(rows: Seq<Seq<u32>>, width: u32, left: nat, row: nat)
    requires
        rows.len() <= left,
        forall|i: int| 0 <= i < rows.len() ==> (#[trigger] rows[i]).len() == width,
    ensures
        data_rows(row_lines(rows), width, left, row) == Ok::<Seq<u32>, ParseError>(
            flatten_rows(rows) + zeros(width * (left - rows.len()) as nat),
        ),
    decreases rows.len(),
{
    if rows.len() == 0 {
        lemma_data_rows_padding(width, left, row);
        assert(Seq::<u32>::empty() + zeros(width * left) =~= zeros(width * left));
    } else {
        let s = row_lines(rows);
        let line = row_text(rows[0]);
        let tail = rows.drop_first();
        let rest = row_lines(tail);
        lemma_row_text(rows[0]);
        lemma_field_len_before(line, '\n', rest);
        assert(first_line(s) =~= line);
        assert(after_first_line(s) =~= rest);
        assert forall|i: int| 0 <= i < tail.len() implies (#[trigger] tail[i]).len() == width by {
            assert(tail[i] == rows[i + 1]);
        }
        lemma_data_rows_short(tail, width, (left - 1) as nat, row + 1);
        let pad = zeros(width * (left - rows.len()) as nat);
        assert((left - 1) as nat - tail.len() == left - rows.len());
        assert(rows[0] + (flatten_rows(tail) + pad) =~= (rows[0] + flatten_rows(tail)) + pad);
    }
}

/// A level whose text supplies fewer rows than its height declares is padded
/// with rows of zeros.
pub proof fn lemma_missing_rows_are_zero(rows: Seq<Seq<u32>>, width: u32, height: u32)
    requires
        rows.len() <= height,
        forall|i: int| 0 <= i < rows.len() ==> (#[trigger] rows[i]).len() == width,
    ensures
        parse_level(header_text(width, height) + seq!['\n'] + row_lines(rows)) == Ok::<
            (Seq<u32>, u32, u32),
            ParseError,
        >((flatten_rows(rows) + zeros(width * (height - rows.len()) as nat), width, height)),
{
    let header = header_text(width, height);
    let body = row_lines(rows);
    let s = header + seq!['\n'] + body;
    lemma_header_text(width, height);
    lemma_field_len_before(header, '\n', body);
    assert(first_line(s) =~= header);
    assert(after_first_line(s) =~= body);
    lemma_data_rows_short(rows, width, height as nat, 0);
}

/// A text whose first line holds no `:` has an invalid header.
pub proof fn lemma_header_without_colon(s: Seq<char>)
    requires
        forall|i: int| 0 <= i < first_line(s).len() ==> #[trigger] first_line(s)[i] != ':',
    ensures
        parse_level(s) == Err::<(Seq<u32>, u32, u32), ParseError>(ParseError::InvalidHeader),
{
    lemma_field_len_before(first_line(s), ':', Seq::empty());
}

} // verus!
