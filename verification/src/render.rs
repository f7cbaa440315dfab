use vstd::prelude::*;

use crate::board::{Board, SeaField};

verus! {

/// The decimal digit `d`.
pub open spec fn digit(d: int) -> Seq<char> {
    if d == 0 {
        "0"@
    } else if d == 1 {
        "1"@
    } else if d == 2 {
        "2"@
    } else if d == 3 {
        "3"@
    } else if d == 4 {
        "4"@
    } else if d == 5 {
        "5"@
    } else if d == 6 {
        "6"@
    } else if d == 7 {
        "7"@
    } else if d == 8 {
        "8"@
    } else {
        "9"@
    }
}

/// `n` written in decimal, without leading zeros.
pub open spec fn decimal(n: nat) -> Seq<char>
    decreases n,
{
    if n < 10 {
        digit(n as int)
    } else {
        decimal(n / 10) + digit((n % 10) as int)
    }
}

/// What a cell shows: on a hidden board, a ship looks like the sea.
pub open spec fn shown(hide: bool, f: SeaField) -> SeaField {
    if hide && f == SeaField::Ship {
        SeaField::Sea
    } else {
        f
    }
}

/// The cells of a row, each followed by a space.
pub open spec fn cells_text(hide: bool, row: Seq<SeaField>) -> Seq<char>
    decreases row.len(),
{
    if row.len() == 0 {
        Seq::empty()
    } else {
        cells_text(hide, row.drop_last()) + shown(hide, row.last()).glyph() + " "@
    }
}

/// The column numbers `1..=n`, each followed by a space, after an indent of two spaces.
pub open spec fn header_text(n: nat) -> Seq<char>
    decreases n,
{
    if n == 0 {
        "  "@
    } else {
        header_text((n - 1) as nat) + decimal(n) + " "@
    }
}

/// The rows of a grid, each after its number and ending a line.
pub open spec fn rows_text(hide: bool, g: Seq<Seq<SeaField>>) -> Seq<char>
    decreases g.len(),
{
    if g.len() == 0 {
        Seq::empty()
    } else {
        rows_text(hide, g.drop_last()) + decimal(g.len()) + " "@ + cells_text(hide, g.last()) + "\n"@
    }
}

/// The picture of a board: the column numbers, then each numbered row.
pub open spec fn picture(b: Board) -> Seq<char> {
    header_text(b.size as nat) + "\n"@ + rows_text(b.hide, b.grid())
}

/// The text of the decimal digit `d`.
fn digit_str(d: usize) -> (r: &'static str)
    requires
        d < 10,
    ensures
        r@ == digit(d as int),
{
    if d == 0 {
        "0"
    } else if d == 1 {
        "1"
    } else if d == 2 {
        "2"
    } else if d == 3 {
        "3"
    } else if d == 4 {
        "4"
    } else if d == 5 {
        "5"
    } else if d == 6 {
        "6"
    } else if d == 7 {
        "7"
    } else if d == 8 {
        "8"
    } else {
        "9"
    }
}

/// Appends `n` in decimal to `s`.
fn push_decimal(s: &mut String, n: usize)
    ensures
        final(s)@ == old(s)@ + decimal(n as nat),
    decreases n,
{
    if n >= 10 {
        push_decimal(s, n / 10);
    }
    s.append(digit_str(n % 10));
    proof {
        assert(old(s)@ + decimal(n as nat) =~= if n >= 10 {
            old(s)@ + decimal((n / 10) as nat) + digit((n % 10) as int)
        } else {
            old(s)@ + digit((n % 10) as int)
        });
    }
}

impl SeaField {
    /// The one-character picture of the cell, as text.
    fn glyph_str(&self) -> (r: &'static str)
        ensures
            r@ == self.glyph(),
    {
        match self {
            SeaField::Sea => "~",
            SeaField::Ship => "\u{2588}",
            SeaField::Hit => "X",
            SeaField::Miss => "\u{25aa}",
        }
    }
}

impl Board {
    /// The picture of the board: a line of column numbers, then one numbered line per row;
    /// on a hidden board ships are drawn as sea.
    pub fn to_string(&self) -> (s: String)
        ensures
            s@ == picture(*self),
    {
        let mut res = String::from_str("  ");
        let mut i: usize = 0;
        while i < self.size
            invariant
                i <= self.size,
                res@ == header_text(i as nat),
            decreases self.size - i,
        {
            push_decimal(&mut res, i + 1);
            res.append(" ");
            i = i + 1;
        }
        res.append("\n");
        let ghost head = res@;
        let mut r: usize = 0;
        while r < self.field.len()
            invariant
                r <= self.field@.len(),
                head == header_text(self.size as nat) + "\n"@,
                res@ == head + rows_text(self.hide, self.grid().take(r as int)),
            decreases self.field@.len() - r,
        {
            let row = &self.field[r];
            let ghost before_row = res@;
            push_decimal(&mut res, r + 1);
            res.append(" ");
            let ghost row_start = res@;
            let mut c: usize = 0;
            while c < row.len()
                invariant
                    c <= row@.len(),
                    res@ == row_start + cells_text(self.hide, row@.take(c as int)),
                decreases row@.len() - c,
            {
                let cell = row[c];
                if self.hide && cell == SeaField::Ship {
                    res.append(SeaField::Sea.glyph_str());
                    res.append(" ");
                } else {
                    res.append(cell.glyph_str());
                    res.append(" ");
                }
                proof {
                    assert(row@.take(c + 1).drop_last() =~= row@.take(c as int));
                    assert(row@.take(c + 1).last() == cell);
                }
                c = c + 1;
            }
            res.append("\n");
            proof {
                let g = self.grid();
                assert(row@.take(row@.len() as int) =~= row@);
                assert(g.take(r + 1).drop_last() =~= g.take(r as int));
                assert(g.take(r + 1).last() == row@);
                assert(res@ =~= head + rows_text(self.hide, g.take(r + 1)));
            }
            r = r + 1;
        }
        proof {
            assert(self.grid().take(self.field@.len() as int) =~= self.grid());
        }
        res
    }
}


/// The two fields show the same thing on a hidden board: equal, or both sea or ship.
pub open spec fn same_when_hidden(f: SeaField, g: SeaField) -> bool {
    f == g || ((f == SeaField::Sea || f == SeaField::Ship) && (g == SeaField::Sea || g == SeaField::Ship))
}

/// Rows that show the same when hidden have the same text.
proof fn lemma_cells_text_hidden(a: Seq<SeaField>, b: Seq<SeaField>)
    requires
        a.len() == b.len(),
        forall|j: int| 0 <= j < a.len() ==> same_when_hidden(#[trigger] a[j], b[j]),
    ensures
        cells_text(true, a) == cells_text(true, b),
    decreases a.len(),
{
    if a.len() > 0 {
        lemma_cells_text_hidden(a.drop_last(), b.drop_last());
        assert(same_when_hidden(a[a.len() - 1], b[b.len() - 1]));
    }
}

/// Grids that show the same when hidden have the same text.
proof fn lemma_rows_text_hidden(a: Seq<Seq<SeaField>>, b: Seq<Seq<SeaField>>)
    requires
        a.len() == b.len(),
        forall|i: int|
            0 <= i < a.len() ==> (#[trigger] a[i]).len() == b[i].len() && forall|j: int|
                0 <= j < a[i].len() ==> same_when_hidden(#[trigger] a[i][j], b[i][j]),
    ensures
        rows_text(true, a) == rows_text(true, b),
    decreases a.len(),
{
    if a.len() > 0 {
        assert forall|i: int| 0 <= i < a.drop_last().len() implies (#[trigger] a.drop_last()[i]).len()
            == b.drop_last()[i].len() && forall|j: int|
            0 <= j < a.drop_last()[i].len() ==> same_when_hidden(#[trigger] a.drop_last()[i][j], b.drop_last()[i][j]) by {
            assert(a.drop_last()[i] == a[i]);
            assert(b.drop_last()[i] == b[i]);
        }
        lemma_rows_text_hidden(a.drop_last(), b.drop_last());
        let k = a.len() - 1;
        assert(a.last() == a[k]);
        assert forall|j: int| 0 <= j < a.last().len() implies same_when_hidden(#[trigger] a.last()[j], b.last()[j]) by {
            assert(same_when_hidden(a[k][j], b[k][j]));
        }
        lemma_cells_text_hidden(a.last(), b.last());
    }
}

/// The picture of a hidden board does not tell where its unhit decks lie: two hidden boards of
/// the same size, whose fields differ only between sea and ship, have the same picture.
pub proof fn law_hidden_picture(a: Board, b: Board)
    requires
        a.hide,
        b.hide,
        a.size == b.size,
        a.field@.len() == b.field@.len(),
        forall|i: int|
            0 <= i < a.field@.len() ==> (#[trigger] a.field@[i])@.len() == b.field@[i]@.len() && forall|j: int|
                0 <= j < a.field@[i]@.len() ==> same_when_hidden(#[trigger] a.field@[i]@[j], b.field@[i]@[j]),
    ensures
        picture(a) == picture(b),
{
    assert forall|i: int|
        0 <= i < a.grid().len() implies (#[trigger] a.grid()[i]).len() == b.grid()[i].len() && forall|j: int|
            0 <= j < a.grid()[i].len() ==> same_when_hidden(#[trigger] a.grid()[i][j], b.grid()[i][j]) by {
        assert(a.grid()[i] == a.field@[i]@);
        assert(b.grid()[i] == b.field@[i]@);
        assert forall|j: int| 0 <= j < a.grid()[i].len() implies same_when_hidden(#[trigger] a.grid()[i][j], b.grid()[i][j]) by {
            assert(same_when_hidden(a.field@[i]@[j], b.field@[i]@[j]));
        }
    }
    lemma_rows_text_hidden(a.grid(), b.grid());
}

/// The one-character text of a cell as drawn: on a hidden board a ship is drawn as the sea,
/// `~`; every other cell, and every cell of a board that is not hidden, as its own glyph:
/// `~` sea, `\u{2588}` ship, `X` hit, `\u{25aa}` miss.
pub open spec fn drawn_char(hide: bool, f: SeaField) -> char {
    match f {
        SeaField::Sea => '~',
        SeaField::Ship => if hide {
            '~'
        } else {
            '\u{2588}'
        },
        SeaField::Hit => 'X',
        SeaField::Miss => '\u{25aa}',
    }
}

/// The text of a row gives each cell two characters: the cell as drawn, then a space. So on a
/// board that is not hidden every cell shows its own glyph, a hit as `X`; on a hidden board
/// only the ships are drawn otherwise, as sea.
pub proof fn law_row_picture(hide: bool, row: Seq<SeaField>)
    ensures
        cells_text(hide, row).len() == 2 * row.len(),
        forall|j: int| 0 <= j < row.len() ==> #[trigger] cells_text(hide, row)[2 * j] == drawn_char(hide, row[j]),
        forall|j: int| 0 <= j < row.len() ==> #[trigger] cells_text(hide, row)[2 * j + 1] == ' ',
        !hide ==> forall|j: int| 0 <= j < row.len() ==> #[trigger] cells_text(hide, row)[2 * j] == row[j].glyph()[0],
    decreases row.len(),
{
    reveal_strlit("~");
    reveal_strlit("\u{2588}");
    reveal_strlit("X");
    reveal_strlit("\u{25aa}");
    reveal_strlit(" ");
    if row.len() > 0 {
        let init = row.drop_last();
        law_row_picture(hide, init);
        let t = cells_text(hide, row);
        let ti = cells_text(hide, init);
        let f = row.last();
        assert(shown(hide, f).glyph().len() == 1);
        assert(shown(hide, f).glyph()[0] == drawn_char(hide, f));
        assert(t == ti + shown(hide, f).glyph() + " "@);
        assert forall|j: int| 0 <= j < row.len() implies #[trigger] t[2 * j] == drawn_char(hide, row[j]) && t[2 * j + 1] == ' ' by {
            if j < init.len() {
                assert(row[j] == init[j]);
                assert(ti[2 * j] == drawn_char(hide, init[j]));
                assert(ti[2 * j + 1] == ' ');
            }
        }
        assert forall|j: int| 0 <= j < row.len() implies #[trigger] t[2 * j + 1] == ' ' by {
            assert(t[2 * j] == drawn_char(hide, row[j]) && t[2 * j + 1] == ' ');
        }
        if !hide {
            assert forall|j: int| 0 <= j < row.len() implies #[trigger] t[2 * j] == row[j].glyph()[0] by {
                assert(t[2 * j] == drawn_char(hide, row[j]));
            }
        }
    }
}

} // verus!
