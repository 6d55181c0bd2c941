//! Sample-text generation for fixtures: a block of `rows` lines, each
//! filled with one repeated character.

use vstd::prelude::*;

verus! {

/// The fill character of line `row`: `'a'` for the first line, `'b'` for
/// the second, and so on, wrapping through the byte range past `'z'`.
pub open spec fn row_char(row: int) -> char {
    (((97 + (row % 256)) % 256) as u8) as char
}

/// The text of lines `row..rows`, each `cols` copies of its fill character,
/// with a newline after every line but the last.
pub open spec fn rows_text(row: int, rows: int, cols: int) -> Seq<char>
    decreases rows - row,
{
    if row < 0 || row >= rows {
        Seq::empty()
    } else {
        Seq::new(cols as nat, |i: int| row_char(row)) + (if row < rows - 1 {
            seq!['\n']
        } else {
            Seq::empty()
        }) + rows_text(row + 1, rows, cols)
    }
}

/// The full sample text of `rows` lines of `cols` characters each.
pub open spec fn sample_text_spec(rows: int, cols: int) -> Seq<char> {
    rows_text(0, rows, cols)
}

/// Relies on `String::push`: appends exactly the given character.
#[verifier::external_body]
fn push_char(text: &mut String, c: char)
    ensures
        final(text)@ == old(text)@.push(c),
{
    text.push(c);
}

/// Returns `rows` lines of `cols` characters each, line `row` filled with
/// `row_char(row)`, consecutive lines separated by a newline.
pub fn sample_text(rows: usize, cols: usize) -> (text: String)
    ensures
        text@ == sample_text_spec(rows as int, cols as int),
{
    let mut text = String::new();
    let mut row: usize = 0;
    while row < rows
        invariant
            row <= rows,
            text@ + rows_text(row as int, rows as int, cols as int)
                == sample_text_spec(rows as int, cols as int),
        decreases rows - row,
    {
        let code: usize = (97 + row % 256) % 256;
        let c: char = (code as u8) as char;
        assert(c == row_char(row as int));
        let ghost line_start = text@;
        let mut col: usize = 0;
        while col < cols
            invariant
                col <= cols,
                c == row_char(row as int),
                text@ == line_start + Seq::new(col as nat, |i: int| row_char(row as int)),
            decreases cols - col,
        {
            push_char(&mut text, c);
            proof {
                assert(text@ =~= line_start
                    + Seq::new((col + 1) as nat, |i: int| row_char(row as int)));
            }
            col = col + 1;
        }
        if row + 1 < rows {
            push_char(&mut text, '\n');
            proof {
                assert(text@ =~= line_start
                    + (Seq::new(cols as nat, |i: int| row_char(row as int)) + seq!['\n']));
            }
        }
        proof {
            assert(text@ + rows_text(row + 1, rows as int, cols as int)
                =~= line_start + rows_text(row as int, rows as int, cols as int));
        }
        row = row + 1;
    }
    text
}

} // verus!
