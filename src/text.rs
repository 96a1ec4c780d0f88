//! Drawing a grid as text: walls of `-` and `|`, corners of `+`, and a
//! label inside each cell.

use crate::cell::{Cell, CellView, Direction};
use crate::maze::{cells_view, shaped};
use vstd::prelude::*;
use vstd::string::StringExecFns;

verus! {

/// `width` copies of `c`.
pub open spec fn repeat_char(c: char, width: nat) -> Seq<char> {
    Seq::new(width, |_i: int| c)
}

/// The wall above a cell: blanks where it has a passage north.
pub open spec fn north_wall(v: CellView, width: nat) -> Seq<char> {
    if v.has_link_toward(Direction::North) {
        repeat_char(' ', width)
    } else {
        repeat_char('-', width)
    }
}

/// The wall right of a cell: a blank where it has a passage east.
pub open spec fn east_wall(v: CellView) -> Seq<char> {
    if v.has_link_toward(Direction::East) {
        seq![' ']
    } else {
        seq!['|']
    }
}

/// The line above a row of cells.
pub open spec fn top_text(row: Seq<CellView>, width: nat) -> Seq<char>
    decreases row.len(),
{
    if row.len() == 0 {
        seq!['+']
    } else {
        top_text(row.drop_last(), width) + north_wall(row.last(), width) + seq!['+']
    }
}

/// The line through a row of cells, each showing its label.
pub open spec fn body_text(row: Seq<CellView>, labels: Seq<Seq<char>>) -> Seq<char>
    decreases row.len(),
{
    if row.len() == 0 {
        seq!['|']
    } else {
        body_text(row.drop_last(), labels.drop_last()) + labels[row.len() - 1] + east_wall(
            row.last(),
        )
    }
}

/// The two lines of each row, in order.
pub open spec fn rows_text(g: Seq<Seq<CellView>>, labels: Seq<Seq<Seq<char>>>, width: nat) -> Seq<char>
    decreases g.len(),
{
    if g.len() == 0 {
        Seq::empty()
    } else {
        rows_text(g.drop_last(), labels.drop_last(), width) + top_text(g.last(), width) + seq!['\n']
            + body_text(g.last(), labels[g.len() - 1]) + seq!['\n']
    }
}

/// The line below the last row.
pub open spec fn bottom_text(cols: nat, width: nat) -> Seq<char>
    decreases cols,
{
    if cols == 0 {
        seq!['+']
    } else {
        bottom_text((cols - 1) as nat, width) + repeat_char('-', width) + seq!['+']
    }
}

/// The whole drawing of a grid.
pub open spec fn grid_text(g: Seq<Seq<CellView>>, labels: Seq<Seq<Seq<char>>>, cols: nat, width: nat) -> Seq<char> {
    rows_text(g, labels, width) + bottom_text(cols, width) + seq!['\n']
}

/// The labels as character sequences.
pub open spec fn labels_view(labels: Seq<Vec<String>>) -> Seq<Seq<Seq<char>>> {
    labels.map_values(|row: Vec<String>| row@.map_values(|s: String| s@))
}

/// The same label for every cell of a `rows` by `cols` grid.
pub open spec fn uniform_labels(rows: int, cols: int, label: Seq<char>) -> Seq<Seq<Seq<char>>> {
    Seq::new(rows as nat, |_r: int| Seq::new(cols as nat, |_c: int| label))
}

fn append_repeated(s: &mut String, blank: bool, width: usize)
    ensures
        final(s)@ == old(s)@ + repeat_char(if blank { ' ' } else { '-' }, width as nat),
{
    proof {
        reveal_strlit(" ");
        reveal_strlit("-");
    }
    let mut i: usize = 0;
    while i < width
        invariant
            i <= width,
            s@ == old(s)@ + repeat_char(if blank { ' ' } else { '-' }, i as nat),
        decreases width - i,
    {
        proof {
            reveal_strlit(" ");
            reveal_strlit("-");
        }
        if blank {
            s.append(" ");
        } else {
            s.append("-");
        }
        assert(s@ =~= old(s)@ + repeat_char(if blank { ' ' } else { '-' }, (i + 1) as nat));
        i = i + 1;
    }
}

/// Labels for a `rows` by `cols` grid, each cell showing `width` blanks.
pub fn blank_labels(rows: i32, cols: i32, width: usize) -> (r: Vec<Vec<String>>)
    requires
        0 <= rows,
        0 <= cols,
    ensures
        r@.len() == rows,
        forall|i: int| 0 <= i < rows ==> (#[trigger] r@[i])@.len() == cols,
        labels_view(r@) == uniform_labels(rows as int, cols as int, repeat_char(' ', width as nat)),
{
    let mut out: Vec<Vec<String>> = Vec::new();
    let mut i: i32 = 0;
    while i < rows
        invariant
            0 <= i <= rows,
            0 <= cols,
            out@.len() == i,
            forall|k: int| 0 <= k < i ==> (#[trigger] out@[k])@.len() == cols,
            forall|k: int, j: int|
                0 <= k < i && 0 <= j < cols ==> (#[trigger] out@[k]@[j])@ == repeat_char(' ', width as nat),
        decreases rows - i,
    {
        let mut row: Vec<String> = Vec::new();
        let mut j: i32 = 0;
        while j < cols
            invariant
                0 <= j <= cols,
                row@.len() == j,
                forall|t: int| 0 <= t < j ==> (#[trigger] row@[t])@ == repeat_char(' ', width as nat),
            decreases cols - j,
        {
            let mut label = String::from_str("");
            proof {
                reveal_strlit("");
            }
            append_repeated(&mut label, true, width);
            row.push(label);
            j = j + 1;
        }
        out.push(row);
        i = i + 1;
    }
    assert(labels_view(out@) =~~= uniform_labels(rows as int, cols as int, repeat_char(' ', width as nat)));
    out
}

/// Draws the cells as text, each cell `width` characters wide with the
/// label given for it.
pub fn draw(cells: &Vec<Vec<Cell>>, rows: i32, cols: i32, labels: &Vec<Vec<String>>, width: usize) -> (r: String)
    requires
        shaped(cells_view(cells@), rows as int, cols as int),
        labels@.len() == rows,
        forall|i: int| 0 <= i < rows ==> (#[trigger] labels@[i])@.len() == cols,
    ensures
        r@ == grid_text(cells_view(cells@), labels_view(labels@), cols as nat, width as nat),
{
    let ghost g = cells_view(cells@);
    let ghost lv = labels_view(labels@);
    proof {
        reveal_strlit("");
        reveal_strlit("+");
        reveal_strlit("|");
        reveal_strlit(" ");
        reveal_strlit("\n");
    }
    let mut out = String::from_str("");
    let mut r: usize = 0;
    while r < rows as usize
        invariant
            0 <= rows,
            0 <= cols,
            r <= rows,
            g == cells_view(cells@),
            lv == labels_view(labels@),
            shaped(g, rows as int, cols as int),
            labels@.len() == rows,
            forall|i: int| 0 <= i < rows ==> (#[trigger] labels@[i])@.len() == cols,
            out@ == rows_text(g.subrange(0, r as int), lv.subrange(0, r as int), width as nat),
        decreases rows - r,
    {
        proof {
            assert(g[r as int].len() == cols);
            assert(g[r as int] == cells@[r as int]@.map_values(|x: Cell| x@));
            assert(cells@[r as int]@.len() == cols);
        }
        proof {
            reveal_strlit("+");
            reveal_strlit("|");
        }
        let mut top = String::from_str("+");
        let mut body = String::from_str("|");
        proof {
            assert(g[r as int].subrange(0, 0) =~= Seq::<CellView>::empty());
            assert(lv[r as int].subrange(0, 0) =~= Seq::<Seq<char>>::empty());
            assert(top_text(Seq::<CellView>::empty(), width as nat) == seq!['+']);
            assert(body_text(Seq::<CellView>::empty(), Seq::<Seq<char>>::empty()) == seq!['|']);
        }
        let mut c: usize = 0;
        while c < cols as usize
            invariant
                0 <= rows,
                0 <= cols,
                r < rows,
                c <= cols,
                g == cells_view(cells@),
                lv == labels_view(labels@),
                g[r as int].len() == cols,
                g[r as int] == cells@[r as int]@.map_values(|x: Cell| x@),
                labels@.len() == rows,
                labels@[r as int]@.len() == cols,
                cells@.len() == rows,
                cells@[r as int]@.len() == cols,
                top@ == top_text(g[r as int].subrange(0, c as int), width as nat),
                body@ == body_text(g[r as int].subrange(0, c as int), lv[r as int].subrange(0, c as int)),
            decreases cols - c,
        {
            proof {
                reveal_strlit("+");
                reveal_strlit("|");
                reveal_strlit(" ");
            }
            let cell = &cells[r][c];
            assert(g[r as int][c as int] == cell@);
            let north_open = cell.direction_has_link(Direction::North);
            let east_open = cell.direction_has_link(Direction::East);
            append_repeated(&mut top, north_open, width);
            top.append("+");
            body.append(labels[r][c].as_str());
            if east_open {
                body.append(" ");
            } else {
                body.append("|");
            }
            proof {
                let row = g[r as int].subrange(0, c + 1);
                assert(row.drop_last() =~= g[r as int].subrange(0, c as int));
                assert(row.last() == cell@);
                assert(top@ =~= top_text(row, width as nat));
                let lrow = lv[r as int].subrange(0, c + 1);
                assert(lrow.drop_last() =~= lv[r as int].subrange(0, c as int));
                assert(lrow[c as int] == labels@[r as int]@[c as int]@);
                assert(body@ =~= body_text(row, lrow));
            }
            c = c + 1;
        }
        proof {
            reveal_strlit("\n");
        }
        out.append(top.as_str());
        out.append("\n");
        out.append(body.as_str());
        out.append("\n");
        proof {
            let gs = g.subrange(0, r + 1);
            let ls = lv.subrange(0, r + 1);
            assert(gs.drop_last() =~= g.subrange(0, r as int));
            assert(ls.drop_last() =~= lv.subrange(0, r as int));
            assert(g[r as int].subrange(0, cols as int) =~= g[r as int]);
            assert(lv[r as int].subrange(0, cols as int) =~= lv[r as int]);
            assert(out@ =~= rows_text(gs, ls, width as nat));
        }
        r = r + 1;
    }
    let mut bottom = String::from_str("+");
    let mut c: usize = 0;
    while c < cols as usize
        invariant
            0 <= cols,
            c <= cols,
            bottom@ == bottom_text(c as nat, width as nat),
        decreases cols - c,
    {
        proof {
            reveal_strlit("+");
        }
        append_repeated(&mut bottom, false, width);
        bottom.append("+");
        assert(((c + 1) as nat - 1) as nat == c as nat);
        assert(bottom_text((c + 1) as nat, width as nat) == bottom_text(c as nat, width as nat)
            + repeat_char('-', width as nat) + seq!['+']);
        assert(bottom@ =~= bottom_text((c + 1) as nat, width as nat));
        c = c + 1;
    }
    proof {
        reveal_strlit("\n");
        assert(g.subrange(0, rows as int) =~= g);
        assert(lv.subrange(0, rows as int) =~= lv);
    }
    out.append(bottom.as_str());
    out.append("\n");
    assert(out@ =~= grid_text(g, lv, cols as nat, width as nat));
    out
}

} // verus!
