//! Human-readable rendering of a board, in the style of the KGS client:
//! a bordered 19x19 grid with column letters a..t (skipping i), row 19 at
//! the top, filled/hollow circles for black and white stones, and a
//! trailing legend line. `render_spec` states the exact text.

use vstd::prelude::*;
use crate::board::Board;
use crate::group::stones_wf;

verus! {

/// Relies on `String::push`: appends one character at the end.
pub assume_specification[ String::push ](s: &mut String, c: char)
    ensures
        final(s)@ == old(s)@.push(c),
;

/// Relies on `String::push_str`: appends a string slice at the end.
pub assume_specification[ String::push_str ](s: &mut String, other: &str)
    ensures
        final(s)@ == old(s)@ + other@,
;

/// The decimal digit character for `d` in 0..10.
pub open spec fn digit_char(d: int) -> char {
    ((48 + d) as u8) as char
}

/// The column letter of column `x`: a..t with i skipped.
pub open spec fn letter_spec(x: int) -> char {
    if x == 0 {
        'a'
    } else if x == 1 {
        'b'
    } else if x == 2 {
        'c'
    } else if x == 3 {
        'd'
    } else if x == 4 {
        'e'
    } else if x == 5 {
        'f'
    } else if x == 6 {
        'g'
    } else if x == 7 {
        'h'
    } else if x == 8 {
        'j'
    } else if x == 9 {
        'k'
    } else if x == 10 {
        'l'
    } else if x == 11 {
        'm'
    } else if x == 12 {
        'n'
    } else if x == 13 {
        'o'
    } else if x == 14 {
        'p'
    } else if x == 15 {
        'q'
    } else if x == 16 {
        'r'
    } else if x == 17 {
        's'
    } else {
        't'
    }
}

/// A space and the column letter, for each of the first `x` columns.
pub open spec fn letters_upto(x: int) -> Seq<char>
    decreases x,
{
    if x <= 0 {
        Seq::empty()
    } else {
        letters_upto(x - 1) + seq![' ', letter_spec(x - 1)]
    }
}

/// The line of column letters above and below the grid.
pub open spec fn letters_line() -> Seq<char> {
    seq![' ', ' ', ' ', ' '] + letters_upto(19) + seq!['\n']
}

/// `k` pairs of horizontal border dashes.
pub open spec fn dashes(k: int) -> Seq<char>
    decreases k,
{
    if k <= 0 {
        Seq::empty()
    } else {
        dashes(k - 1) + seq!['\u{2500}', '\u{2500}']
    }
}

/// The top border line with its rounded corners.
pub open spec fn top_border() -> Seq<char> {
    seq![' ', ' ', ' ', '\u{256d}'] + dashes(19) + seq!['\u{2500}', '\u{256e}', '\n']
}

/// The bottom border line with its rounded corners.
pub open spec fn bottom_border() -> Seq<char> {
    seq![' ', ' ', ' ', '\u{2570}'] + dashes(19) + seq!['\u{2500}', '\u{256f}', '\n']
}

/// The two characters drawn for one cell: a filled circle for black, a
/// hollow one for white, blanks for an empty vertex.
pub open spec fn glyph(b: u8) -> Seq<char> {
    if b == 1 {
        seq![' ', '\u{25cf}']
    } else if b == 2 {
        seq![' ', '\u{25cb}']
    } else {
        seq![' ', ' ']
    }
}

/// The glyphs of the first `col` cells of board row `y`.
pub open spec fn cells_upto(s: Seq<u8>, y: int, col: int) -> Seq<char>
    decreases col,
{
    if col <= 0 {
        Seq::empty()
    } else {
        cells_upto(s, y, col - 1) + glyph(s[19 * y + (col - 1)])
    }
}

/// A row number right-aligned to two characters, as at the left edge.
pub open spec fn row_number(rownum: int) -> Seq<char> {
    if rownum < 10 {
        seq![' ', digit_char(rownum)]
    } else {
        seq!['1', digit_char(rownum - 10)]
    }
}

/// A row number without padding, as at the right edge.
pub open spec fn plain_number(rownum: int) -> Seq<char> {
    if rownum < 10 {
        seq![digit_char(rownum)]
    } else {
        seq!['1', digit_char(rownum - 10)]
    }
}

/// One grid line: the row number, the left border, the 19 cells, the
/// right border and the row number again.
pub open spec fn row_line(s: Seq<u8>, y: int) -> Seq<char> {
    row_number(y + 1) + seq![' ', '\u{2502}'] + cells_upto(s, y, 19) + seq![
        ' ',
        '\u{2502}',
        ' ',
    ] + plain_number(y + 1) + seq!['\n']
}

/// The first `k` grid lines in display order: row 19 at the top.
pub open spec fn rows_upto(s: Seq<u8>, k: int) -> Seq<char>
    decreases k,
{
    if k <= 0 {
        Seq::empty()
    } else {
        rows_upto(s, k - 1) + row_line(s, 18 - (k - 1))
    }
}

/// The legend line naming the two glyphs.
pub open spec fn legend() -> Seq<char> {
    seq![
        ' ',
        ' ',
        ' ',
        ' ',
        '\u{25cf}',
        ' ',
        'B',
        'l',
        'a',
        'c',
        'k',
        ' ',
        ' ',
        ' ',
        ' ',
        '\u{25cb}',
        ' ',
        'W',
        'h',
        'i',
        't',
        'e',
        '\n',
    ]
}

/// The full rendering of a position.
pub open spec fn render_spec(s: Seq<u8>) -> Seq<char> {
    letters_line() + top_border() + rows_upto(s, 19) + bottom_border() + letters_line() + legend()
}

/// The column letters: `i` is skipped, as Go convention has it.
fn column_letter(x: usize) -> (r: char)
    requires
        x < 19,
    ensures
        r == letter_spec(x as int),
{
    if x == 0 {
        'a'
    } else if x == 1 {
        'b'
    } else if x == 2 {
        'c'
    } else if x == 3 {
        'd'
    } else if x == 4 {
        'e'
    } else if x == 5 {
        'f'
    } else if x == 6 {
        'g'
    } else if x == 7 {
        'h'
    } else if x == 8 {
        'j'
    } else if x == 9 {
        'k'
    } else if x == 10 {
        'l'
    } else if x == 11 {
        'm'
    } else if x == 12 {
        'n'
    } else if x == 13 {
        'o'
    } else if x == 14 {
        'p'
    } else if x == 15 {
        'q'
    } else if x == 16 {
        'r'
    } else if x == 17 {
        's'
    } else {
        't'
    }
}

/// Appends the line of column letters.
#[verifier::loop_isolation(false)]
fn push_letters_line(out: &mut String)
    ensures
        final(out)@ == old(out)@ + letters_line(),
{
    let ghost start = out@;
    out.push(' ');
    out.push(' ');
    out.push(' ');
    out.push(' ');
    let ghost base = out@;
    let mut x: usize = 0;
    while x < 19
        invariant
            x <= 19,
            out@ == base + letters_upto(x as int),
        decreases 19 - x,
    {
        out.push(' ');
        out.push(column_letter(x));
        proof {
            assert(out@ =~= base + letters_upto(x + 1));
        }
        x += 1;
    }
    out.push('\n');
    proof {
        assert(base =~= start + seq![' ', ' ', ' ', ' ']);
        assert(out@ =~= start + letters_line());
        assert(start == old(out)@);
    }
}

/// Appends a border line with the given corner characters.
#[verifier::loop_isolation(false)]
fn push_border(out: &mut String, left: char, right: char)
    ensures
        final(out)@ == old(out)@ + (seq![' ', ' ', ' ', left] + dashes(19) + seq![
            '\u{2500}',
            right,
            '\n',
        ]),
{
    let ghost start = out@;
    out.push(' ');
    out.push(' ');
    out.push(' ');
    out.push(left);
    let ghost base = out@;
    let mut b: usize = 0;
    while b < 19
        invariant
            b <= 19,
            out@ == base + dashes(b as int),
        decreases 19 - b,
    {
        out.push('\u{2500}');
        out.push('\u{2500}');
        proof {
            assert(out@ =~= base + dashes(b + 1));
        }
        b += 1;
    }
    out.push('\u{2500}');
    out.push(right);
    out.push('\n');
    proof {
        assert(base =~= start + seq![' ', ' ', ' ', left]);
        assert(out@ =~= start + (seq![' ', ' ', ' ', left] + dashes(19) + seq![
            '\u{2500}',
            right,
            '\n',
        ]));
        assert(start == old(out)@);
    }
}

/// Appends a right-aligned two-character row number.
fn push_row_number(out: &mut String, row: usize)
    requires
        1 <= row <= 19,
    ensures
        final(out)@ == old(out)@ + row_number(row as int),
{
    let ghost start = out@;
    if row < 10 {
        out.push(' ');
        out.push((48u8 + (row as u8)) as char);
    } else {
        out.push('1');
        out.push((48u8 + ((row - 10) as u8)) as char);
    }
    proof {
        assert(out@ =~= start + row_number(row as int));
        assert(start == old(out)@);
    }
}

/// Appends an unpadded row number.
fn push_plain_number(out: &mut String, row: usize)
    requires
        1 <= row <= 19,
    ensures
        final(out)@ == old(out)@ + plain_number(row as int),
{
    let ghost start = out@;
    if row < 10 {
        out.push((48u8 + (row as u8)) as char);
    } else {
        out.push('1');
        out.push((48u8 + ((row - 10) as u8)) as char);
    }
    proof {
        assert(out@ =~= start + plain_number(row as int));
        assert(start == old(out)@);
    }
}

/// Appends one grid line for board row `y`.
#[verifier::loop_isolation(false)]
fn push_row(out: &mut String, vertices: &Vec<u8>, y: usize)
    requires
        vertices@.len() == 368,
        y < 19,
    ensures
        final(out)@ == old(out)@ + row_line(vertices@, y as int),
{
    let ghost start = out@;
    push_row_number(out, y + 1);
    out.push(' ');
    out.push('\u{2502}');
    let ghost base = out@;
    let mut col: usize = 0;
    while col < 19
        invariant
            col <= 19,
            out@ == base + cells_upto(vertices@, y as int, col as int),
        decreases 19 - col,
    {
        let index = 19 * y + col;
        let v = vertices[index];
        if v == 1 {
            out.push(' ');
            out.push('\u{25cf}');
        } else if v == 2 {
            out.push(' ');
            out.push('\u{25cb}');
        } else {
            out.push(' ');
            out.push(' ');
        }
        proof {
            assert(out@ =~= base + cells_upto(vertices@, y as int, col + 1));
        }
        col += 1;
    }
    out.push(' ');
    out.push('\u{2502}');
    out.push(' ');
    push_plain_number(out, y + 1);
    out.push('\n');
    proof {
        assert(base =~= start + row_number(y + 1) + seq![' ', '\u{2502}']);
        assert(out@ =~= start + row_line(vertices@, y as int));
        assert(start == old(out)@);
    }
}

/// Appends the legend line.
fn push_legend(out: &mut String)
    ensures
        final(out)@ == old(out)@ + legend(),
{
    let ghost start = out@;
    out.push(' ');
    out.push(' ');
    out.push(' ');
    out.push(' ');
    out.push('\u{25cf}');
    out.push(' ');
    out.push('B');
    out.push('l');
    out.push('a');
    out.push('c');
    out.push('k');
    out.push(' ');
    out.push(' ');
    out.push(' ');
    out.push(' ');
    out.push('\u{25cb}');
    out.push(' ');
    out.push('W');
    out.push('h');
    out.push('i');
    out.push('t');
    out.push('e');
    out.push('\n');
    proof {
        assert(out@ =~= start + legend());
        assert(start == old(out)@);
    }
}

impl Board {
    /// Pretty-prints the current position: the bordered grid of
    /// `render_spec`, with `●` for black, `○` for white, column letters
    /// below and above, row numbers on both sides with row 19 on top, and
    /// a trailing legend line.
    #[verifier::loop_isolation(false)]
    pub fn render(&self) -> (r: String)
        requires
            self.wf(),
        ensures
            r@ == render_spec(self.vertices@),
    {
        let mut out = String::new();
        push_letters_line(&mut out);
        push_border(&mut out, '\u{256d}', '\u{256e}');
        let ghost base = out@;
        let mut row: usize = 0;
        while row < 19
            invariant
                row <= 19,
                self.wf(),
                out@ == base + rows_upto(self.vertices@, row as int),
            decreases 19 - row,
        {
            let y = 18 - row;
            push_row(&mut out, &self.vertices, y);
            proof {
                assert(out@ =~= base + rows_upto(self.vertices@, row + 1));
            }
            row += 1;
        }
        push_border(&mut out, '\u{2570}', '\u{256f}');
        push_letters_line(&mut out);
        push_legend(&mut out);
        proof {
            assert(out@ =~= render_spec(self.vertices@));
        }
        out
    }
}

} // verus!
