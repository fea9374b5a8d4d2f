//! The two-column table listing the files.

use vstd::prelude::*;
use vstd::string::StrSliceExecFns;

use crate::text::{append_str, pair_texts, push_char};

verus! {

/// `n` spaces.
pub open spec fn spaces(n: nat) -> Seq<char> {
    Seq::new(n, |_i: int| ' ')
}

/// The width of the first column: that of its widest cell, the header included.
pub open spec fn column_width(lines: Seq<(Seq<char>, Seq<char>)>) -> nat
    decreases lines.len(),
{
    if lines.len() == 0 {
        0
    } else {
        let w = column_width(lines.drop_last());
        if lines.last().0.len() > w {
            lines.last().0.len()
        } else {
            w
        }
    }
}

/// One line of the table: the left cell, padded to `width` and followed by two
/// spaces and the right cell when that one is not empty.
pub open spec fn table_line(line: (Seq<char>, Seq<char>), width: nat) -> Seq<char> {
    if line.1.len() == 0 {
        line.0.push('\n')
    } else {
        (line.0 + spaces((width - line.0.len()) as nat) + seq![' ', ' '] + line.1).push('\n')
    }
}

/// The lines of the table, one after the other.
pub open spec fn table_lines(lines: Seq<(Seq<char>, Seq<char>)>, width: nat) -> Seq<char>
    decreases lines.len(),
{
    if lines.len() == 0 {
        Seq::empty()
    } else {
        table_lines(lines.drop_last(), width) + table_line(lines.last(), width)
    }
}

/// The table of `headers` then `rows`.
pub open spec fn table_text(headers: (Seq<char>, Seq<char>), rows: Seq<(Seq<char>, Seq<char>)>) -> Seq<char> {
    let lines = seq![headers] + rows;
    table_lines(lines, column_width(lines))
}

/// Every cell of the first column fits in the column width.
pub proof fn lemma_column_width_fits(lines: Seq<(Seq<char>, Seq<char>)>, i: int)
    requires
        0 <= i < lines.len(),
    ensures
        lines[i].0.len() <= column_width(lines),
    decreases lines.len(),
{
    if i < lines.len() - 1 {
        lemma_column_width_fits(lines.drop_last(), i);
    }
}

/// Appends one line of the table to `table`.
fn push_table_line(table: &mut String, left: &str, right: &str, width: usize)
    requires
        left@.len() <= width,
    ensures
        final(table)@ == old(table)@ + table_line((left@, right@), width as nat),
{
    if right.is_empty() {
        append_str(table, left);
    } else {
        append_str(table, left);
        let pad = width - left.unicode_len();
        let mut k: usize = 0;
        let ghost base = table@;
        while k < pad
            invariant
                k <= pad,
                table@ == base + spaces(k as nat),
            decreases pad - k,
        {
            push_char(table, ' ');
            proof {
                assert(spaces((k + 1) as nat) =~= spaces(k as nat).push(' '));
            }
            k += 1;
        }
        push_char(table, ' ');
        push_char(table, ' ');
        append_str(table, right);
    }
    push_char(table, '\n');
    proof {
        let line = (left@, right@);
        if right@.len() == 0 {
            assert(final(table)@ =~= old(table)@ + table_line(line, width as nat));
        } else {
            assert(final(table)@ =~= old(table)@ + table_line(line, width as nat));
        }
    }
}

/// Renders `rows` as a two-column table, the first column padded to a common width.
///
/// The header is included, and an empty second column leaves no trailing space.
pub fn format_table(headers: (&str, &str), rows: &[(String, String)]) -> (table: String)
    ensures
        table@ == table_text((headers.0@, headers.1@), pair_texts(rows@)),
{
    let ghost lines = seq![(headers.0@, headers.1@)] + pair_texts(rows@);
    let mut width = headers.0.unicode_len();
    let mut i: usize = 0;
    proof {
        assert(lines.subrange(0, 1).drop_last() =~= Seq::<(Seq<char>, Seq<char>)>::empty());
        assert(lines.subrange(0, 1).last() == lines[0]);
        assert(column_width(lines.subrange(0, 1).drop_last()) == 0);
        assert(column_width(lines.subrange(0, 1)) == headers.0@.len());
    }
    while i < rows.len()
        invariant
            i <= rows@.len(),
            lines == seq![(headers.0@, headers.1@)] + pair_texts(rows@),
            width == column_width(lines.subrange(0, i + 1)),
        decreases rows@.len() - i,
    {
        let count = rows[i].0.as_str().unicode_len();
        proof {
            assert(lines.subrange(0, i + 2).drop_last() =~= lines.subrange(0, i + 1));
            assert(lines[i + 1].0 == rows@[i as int].0@);
        }
        if count > width {
            width = count;
        }
        i += 1;
    }
    proof {
        assert(lines.subrange(0, rows@.len() + 1 as int) =~= lines);
    }
    let mut table = String::new();
    proof {
        lemma_column_width_fits(lines, 0);
        assert(lines.subrange(0, 1).drop_last() =~= Seq::<(Seq<char>, Seq<char>)>::empty());
    }
    push_table_line(&mut table, headers.0, headers.1, width);
    proof {
        assert(lines.subrange(0, 1).last() == lines[0]);
        assert(table_lines(lines.subrange(0, 1).drop_last(), width as nat) =~= Seq::<char>::empty());
        assert(table@ =~= table_lines(lines.subrange(0, 1), width as nat));
    }
    let mut j: usize = 0;
    while j < rows.len()
        invariant
            j <= rows@.len(),
            lines == seq![(headers.0@, headers.1@)] + pair_texts(rows@),
            width == column_width(lines),
            table@ == table_lines(lines.subrange(0, j + 1), width as nat),
        decreases rows@.len() - j,
    {
        proof {
            lemma_column_width_fits(lines, j + 1);
            assert(lines[j + 1] == (rows@[j as int].0@, rows@[j as int].1@));
            assert(lines.subrange(0, j + 2).drop_last() =~= lines.subrange(0, j + 1));
        }
        push_table_line(&mut table, rows[j].0.as_str(), rows[j].1.as_str(), width);
        j += 1;
    }
    proof {
        assert(lines.subrange(0, rows@.len() + 1 as int) =~= lines);
    }
    table
}

/// The texts of triples of strings.
pub open spec fn triple_texts(rows: Seq<(String, String, String)>) -> Seq<(Seq<char>, Seq<char>, Seq<char>)> {
    rows.map_values(|r: (String, String, String)| (r.0@, r.1@, r.2@))
}

/// The first two cells of each line.
pub open spec fn first_pairs(lines: Seq<(Seq<char>, Seq<char>, Seq<char>)>) -> Seq<(Seq<char>, Seq<char>)> {
    lines.map_values(|l: (Seq<char>, Seq<char>, Seq<char>)| (l.0, l.1))
}

/// The last two cells of each line.
pub open spec fn last_pairs(lines: Seq<(Seq<char>, Seq<char>, Seq<char>)>) -> Seq<(Seq<char>, Seq<char>)> {
    lines.map_values(|l: (Seq<char>, Seq<char>, Seq<char>)| (l.1, l.2))
}

/// One line of the three-column table: as in the two-column one when the
/// third cell is empty, else the first two cells padded to their column
/// widths, each followed by two spaces, then the third cell.
pub open spec fn table_line3(line: (Seq<char>, Seq<char>, Seq<char>), w1: nat, w2: nat) -> Seq<char> {
    if line.2.len() == 0 {
        table_line((line.0, line.1), w1)
    } else {
        (line.0 + spaces((w1 - line.0.len()) as nat) + seq![' ', ' '] + line.1 + spaces(
            (w2 - line.1.len()) as nat,
        ) + seq![' ', ' '] + line.2).push('\n')
    }
}

/// The lines of the three-column table, one after the other.
pub open spec fn table_lines3(lines: Seq<(Seq<char>, Seq<char>, Seq<char>)>, w1: nat, w2: nat) -> Seq<
    char,
>
    decreases lines.len(),
{
    if lines.len() == 0 {
        Seq::empty()
    } else {
        table_lines3(lines.drop_last(), w1, w2) + table_line3(lines.last(), w1, w2)
    }
}

/// The three-column table of `headers` then `rows`, each of the first two
/// columns as wide as its widest cell.
pub open spec fn table_text3(
    headers: (Seq<char>, Seq<char>, Seq<char>),
    rows: Seq<(Seq<char>, Seq<char>, Seq<char>)>,
) -> Seq<char> {
    let lines = seq![headers] + rows;
    table_lines3(lines, column_width(first_pairs(lines)), column_width(last_pairs(lines)))
}

/// Appends `cell`, padded with spaces to `width`, and the two spaces that
/// separate it from the next column.
fn push_padded(table: &mut String, cell: &str, width: usize)
    requires
        cell@.len() <= width,
    ensures
        final(table)@ == old(table)@ + cell@ + spaces((width - cell@.len()) as nat) + seq![' ', ' '],
{
    append_str(table, cell);
    let pad = width - cell.unicode_len();
    let mut k: usize = 0;
    let ghost base = table@;
    while k < pad
        invariant
            k <= pad,
            table@ == base + spaces(k as nat),
        decreases pad - k,
    {
        push_char(table, ' ');
        proof {
            assert(spaces((k + 1) as nat) =~= spaces(k as nat).push(' '));
        }
        k += 1;
    }
    push_char(table, ' ');
    push_char(table, ' ');
    assert(final(table)@ =~= old(table)@ + cell@ + spaces((width - cell@.len()) as nat) + seq![
        ' ',
        ' ',
    ]);
}

/// Appends one line of the three-column table to `table`.
fn push_table_line3(table: &mut String, left: &str, middle: &str, right: &str, w1: usize, w2: usize)
    requires
        left@.len() <= w1,
        middle@.len() <= w2,
    ensures
        final(table)@ == old(table)@ + table_line3((left@, middle@, right@), w1 as nat, w2 as nat),
{
    if right.is_empty() {
        push_table_line(table, left, middle, w1);
    } else {
        push_padded(table, left, w1);
        push_padded(table, middle, w2);
        append_str(table, right);
        push_char(table, '\n');
        assert(final(table)@ =~= old(table)@ + table_line3(
            (left@, middle@, right@),
            w1 as nat,
            w2 as nat,
        ));
    }
}

/// The widths of the first two columns grow with the lines considered.
proof fn lemma_widths_step(lines: Seq<(Seq<char>, Seq<char>, Seq<char>)>, i: int)
    requires
        0 <= i < lines.len(),
    ensures
        first_pairs(lines.subrange(0, i + 1)).drop_last() == first_pairs(lines.subrange(0, i)),
        first_pairs(lines.subrange(0, i + 1)).last() == (lines[i].0, lines[i].1),
        last_pairs(lines.subrange(0, i + 1)).drop_last() == last_pairs(lines.subrange(0, i)),
        last_pairs(lines.subrange(0, i + 1)).last() == (lines[i].1, lines[i].2),
{
    assert(first_pairs(lines.subrange(0, i + 1)).drop_last() =~= first_pairs(lines.subrange(0, i)));
    assert(last_pairs(lines.subrange(0, i + 1)).drop_last() =~= last_pairs(lines.subrange(0, i)));
}

/// Renders `rows` as a three-column table under `headers`, the first two
/// columns padded to a common width.
///
/// Empty trailing cells leave no trailing space.
pub fn format_table3(headers: (&str, &str, &str), rows: &[(String, String, String)]) -> (table: String)
    ensures
        table@ == table_text3((headers.0@, headers.1@, headers.2@), triple_texts(rows@)),
{
    let ghost lines = seq![(headers.0@, headers.1@, headers.2@)] + triple_texts(rows@);
    let mut w1 = headers.0.unicode_len();
    let mut w2 = headers.1.unicode_len();
    proof {
        lemma_widths_step(lines, 0);
        assert(first_pairs(lines.subrange(0, 0)) =~= Seq::<(Seq<char>, Seq<char>)>::empty());
        assert(last_pairs(lines.subrange(0, 0)) =~= Seq::<(Seq<char>, Seq<char>)>::empty());
        assert(column_width(Seq::<(Seq<char>, Seq<char>)>::empty()) == 0);
        assert(column_width(first_pairs(lines.subrange(0, 1)).drop_last()) == 0);
        assert(column_width(last_pairs(lines.subrange(0, 1)).drop_last()) == 0);
        assert(column_width(first_pairs(lines.subrange(0, 1))) == headers.0@.len());
        assert(column_width(last_pairs(lines.subrange(0, 1))) == headers.1@.len());
    }
    let mut i: usize = 0;
    while i < rows.len()
        invariant
            i <= rows@.len(),
            lines == seq![(headers.0@, headers.1@, headers.2@)] + triple_texts(rows@),
            w1 == column_width(first_pairs(lines.subrange(0, i + 1))),
            w2 == column_width(last_pairs(lines.subrange(0, i + 1))),
        decreases rows@.len() - i,
    {
        proof {
            lemma_widths_step(lines, i + 1);
            assert(lines[i + 1] == (rows@[i as int].0@, rows@[i as int].1@, rows@[i as int].2@));
        }
        let c1 = rows[i].0.as_str().unicode_len();
        let c2 = rows[i].1.as_str().unicode_len();
        if c1 > w1 {
            w1 = c1;
        }
        if c2 > w2 {
            w2 = c2;
        }
        i += 1;
    }
    proof {
        assert(lines.subrange(0, rows@.len() + 1 as int) =~= lines);
    }
    let mut table = String::new();
    proof {
        lemma_column_width_fits(first_pairs(lines), 0);
        lemma_column_width_fits(last_pairs(lines), 0);
        assert(first_pairs(lines)[0] == (lines[0].0, lines[0].1));
        assert(last_pairs(lines)[0] == (lines[0].1, lines[0].2));
    }
    push_table_line3(&mut table, headers.0, headers.1, headers.2, w1, w2);
    proof {
        assert(lines.subrange(0, 1).last() == lines[0]);
        assert(table_lines3(lines.subrange(0, 1).drop_last(), w1 as nat, w2 as nat) =~= Seq::<
            char,
        >::empty()) by {
            assert(lines.subrange(0, 1).drop_last() =~= Seq::<(Seq<char>, Seq<char>, Seq<char>)>::empty());
        }
        assert(table@ =~= table_lines3(lines.subrange(0, 1), w1 as nat, w2 as nat));
    }
    let mut j: usize = 0;
    while j < rows.len()
        invariant
            j <= rows@.len(),
            lines == seq![(headers.0@, headers.1@, headers.2@)] + triple_texts(rows@),
            w1 == column_width(first_pairs(lines)),
            w2 == column_width(last_pairs(lines)),
            table@ == table_lines3(lines.subrange(0, j + 1), w1 as nat, w2 as nat),
        decreases rows@.len() - j,
    {
        proof {
            lemma_column_width_fits(first_pairs(lines), j + 1);
            lemma_column_width_fits(last_pairs(lines), j + 1);
            assert(lines[j + 1] == (rows@[j as int].0@, rows@[j as int].1@, rows@[j as int].2@));
            assert(first_pairs(lines)[j + 1] == (lines[j + 1].0, lines[j + 1].1));
            assert(last_pairs(lines)[j + 1] == (lines[j + 1].1, lines[j + 1].2));
            assert(lines.subrange(0, j + 2).drop_last() =~= lines.subrange(0, j + 1));
        }
        push_table_line3(
            &mut table,
            rows[j].0.as_str(),
            rows[j].1.as_str(),
            rows[j].2.as_str(),
            w1,
            w2,
        );
        j += 1;
    }
    proof {
        assert(lines.subrange(0, rows@.len() + 1 as int) =~= lines);
    }
    table
}

/// The column width is that of the widest first cell: one cell has it.
pub proof fn lemma_column_width_attained(lines: Seq<(Seq<char>, Seq<char>)>)
    requires
        lines.len() > 0,
    ensures
        exists|k: int| 0 <= k < lines.len() && lines[k].0.len() == column_width(lines),
    decreases lines.len(),
{
    let last = lines.len() - 1;
    assert(lines[last] == lines.last());
    if lines.len() == 1 {
        assert(column_width(lines.drop_last()) == 0);
        assert(lines[0].0.len() == column_width(lines));
    } else {
        lemma_column_width_attained(lines.drop_last());
        let k = choose|k: int|
            0 <= k < lines.drop_last().len() && lines.drop_last()[k].0.len() == column_width(
                lines.drop_last(),
            );
        assert(lines[k] == lines.drop_last()[k]);
        if lines.last().0.len() > column_width(lines.drop_last()) {
            assert(lines[last].0.len() == column_width(lines));
        } else {
            assert(lines[k].0.len() == column_width(lines));
        }
    }
}

/// A line whose second cell is not empty holds the first cell, spaces up to
/// the column width, two more spaces, the second cell and a newline; one
/// whose second cell is empty holds the first cell and the newline only.
pub proof fn lemma_table_line_aligned(line: (Seq<char>, Seq<char>), width: nat)
    requires
        line.0.len() <= width,
    ensures
        line.1.len() == 0 ==> table_line(line, width) == line.0.push('\n'),
        line.1.len() > 0 ==> {
            let t = table_line(line, width);
            &&& t.len() == width + 2 + line.1.len() + 1
            &&& t.take(line.0.len() as int) == line.0
            &&& forall|k: int| line.0.len() <= k < width + 2 ==> #[trigger] t[k] == ' '
            &&& t.subrange(width + 2 as int, width + 2 + line.1.len() as int) == line.1
            &&& t.last() == '\n'
        },
{
    if line.1.len() > 0 {
        let t = table_line(line, width);
        let pad = spaces((width - line.0.len()) as nat);
        assert(t == (line.0 + pad + seq![' ', ' '] + line.1).push('\n'));
        assert(t.take(line.0.len() as int) =~= line.0);
        assert forall|k: int| line.0.len() <= k < width + 2 implies #[trigger] t[k] == ' ' by {
            if k < width {
                assert(t[k] == pad[k - line.0.len()]);
            }
        }
        assert(t.subrange(width + 2 as int, width + 2 + line.1.len() as int) =~= line.1);
    }
}

/// A three-column line with a nonempty last cell holds the first cell padded
/// to `w1` and two spaces, the second padded to `w2` and two spaces, the
/// third cell and a newline.
pub proof fn lemma_table_line3_aligned(line: (Seq<char>, Seq<char>, Seq<char>), w1: nat, w2: nat)
    requires
        line.0.len() <= w1,
        line.1.len() <= w2,
        line.2.len() > 0,
    ensures
        ({
            let t = table_line3(line, w1, w2);
            &&& t.len() == w1 + 2 + w2 + 2 + line.2.len() + 1
            &&& t.take(line.0.len() as int) == line.0
            &&& forall|k: int| line.0.len() <= k < w1 + 2 ==> #[trigger] t[k] == ' '
            &&& t.subrange(w1 + 2 as int, w1 + 2 + line.1.len() as int) == line.1
            &&& forall|k: int| w1 + 2 + line.1.len() <= k < w1 + 2 + w2 + 2 ==> #[trigger] t[k] == ' '
            &&& t.subrange(w1 + w2 + 4 as int, w1 + w2 + 4 + line.2.len() as int) == line.2
            &&& t.last() == '\n'
        }),
{
    let t = table_line3(line, w1, w2);
    let p1 = spaces((w1 - line.0.len()) as nat);
    let p2 = spaces((w2 - line.1.len()) as nat);
    assert(t == (line.0 + p1 + seq![' ', ' '] + line.1 + p2 + seq![' ', ' '] + line.2).push('\n'));
    assert(t.take(line.0.len() as int) =~= line.0);
    assert forall|k: int| line.0.len() <= k < w1 + 2 implies #[trigger] t[k] == ' ' by {
        if k < w1 {
            assert(t[k] == p1[k - line.0.len()]);
        }
    }
    assert(t.subrange(w1 + 2 as int, w1 + 2 + line.1.len() as int) =~= line.1);
    assert forall|k: int| w1 + 2 + line.1.len() <= k < w1 + 2 + w2 + 2 implies #[trigger] t[k] == ' ' by {
        if k < w1 + 2 + w2 {
            assert(t[k] == p2[k - (w1 + 2 + line.1.len())]);
        }
    }
    assert(t.subrange(w1 + w2 + 4 as int, w1 + w2 + 4 + line.2.len() as int) =~= line.2);
}

} // verus!
