//! Counting the cells that a search has not reached, and what recording one
//! cell does to a field.

use crate::field::{at, blank_field, blank_cell, labelled, mark, shaped, GravityMapCell};
use vstd::prelude::*;

verus! {

/// Number of records without a direction in one row.
pub open spec fn blanks_in_row(row: Seq<GravityMapCell>) -> nat
    decreases row.len(),
{
    if row.len() == 0 {
        0
    } else {
        blanks_in_row(row.drop_last()) + if row.last().direction is None {
            1nat
        } else {
            0nat
        }
    }
}

/// Number of cells of the field without a direction.
pub open spec fn blanks(cells: Seq<Seq<GravityMapCell>>) -> nat
    decreases cells.len(),
{
    if cells.len() == 0 {
        0
    } else {
        blanks(cells.drop_last()) + blanks_in_row(cells.last())
    }
}

/// One if the record has no direction, else zero.
pub open spec fn blank_weight(cell: GravityMapCell) -> nat {
    if cell.direction is None {
        1
    } else {
        0
    }
}

/// A row has at most as many blank records as it has records.
pub proof fn lemma_row_bound(row: Seq<GravityMapCell>)
    ensures
        blanks_in_row(row) <= row.len(),
    decreases row.len(),
{
    if row.len() > 0 {
        lemma_row_bound(row.drop_last());
    }
}

/// Replacing one record of a row changes the number of blank records by the
/// difference between the new record and the old.
pub proof fn lemma_row_update(row: Seq<GravityMapCell>, x: int, cell: GravityMapCell)
    requires
        0 <= x < row.len(),
    ensures
        blanks_in_row(row.update(x, cell)) + blank_weight(row[x]) == blanks_in_row(row)
            + blank_weight(cell),
    decreases row.len(),
{
    let changed = row.update(x, cell);
    if x == row.len() - 1 {
        assert(changed.drop_last() =~= row.drop_last());
    } else {
        assert(changed.drop_last() =~= row.drop_last().update(x, cell));
        lemma_row_update(row.drop_last(), x, cell);
    }
}

/// Replacing one row of a field changes the number of blank cells by the
/// difference between the new row and the old.
pub proof fn lemma_grid_update(cells: Seq<Seq<GravityMapCell>>, y: int, row: Seq<GravityMapCell>)
    requires
        0 <= y < cells.len(),
    ensures
        blanks(cells.update(y, row)) + blanks_in_row(cells[y]) == blanks(cells) + blanks_in_row(
            row,
        ),
    decreases cells.len(),
{
    let changed = cells.update(y, row);
    if y == cells.len() - 1 {
        assert(changed.drop_last() =~= cells.drop_last());
    } else {
        assert(changed.drop_last() =~= cells.drop_last().update(y, row));
        lemma_grid_update(cells.drop_last(), y, row);
    }
}

/// A field has at most as many blank cells as it has cells.
pub proof fn lemma_grid_bound(cells: Seq<Seq<GravityMapCell>>, width: int, height: int)
    requires
        shaped(cells, width, height),
        0 <= width,
        0 <= height,
    ensures
        blanks(cells) <= width * height,
    decreases cells.len(),
{
    if cells.len() > 0 {
        let fewer = cells.drop_last();
        assert forall|y: int| 0 <= y < height - 1 implies (#[trigger] fewer[y]).len() == width by {
            assert(fewer[y] == cells[y]);
        }
        lemma_grid_bound(fewer, width, height - 1);
        lemma_row_bound(cells.last());
        assert(width * height == width * (height - 1) + width) by (nonlinear_arith);
    } else {
        assert(width * height == 0) by (nonlinear_arith)
            requires
                height == 0,
        ;
    }
}

/// Recording a cell keeps the shape of the field and changes no other
/// record.
pub proof fn lemma_mark(
    cells: Seq<Seq<GravityMapCell>>,
    width: int,
    height: int,
    x: int,
    y: int,
    cell: GravityMapCell,
)
    requires
        shaped(cells, width, height),
        0 <= x < width,
        0 <= y < height,
    ensures
        shaped(mark(cells, x, y, cell), width, height),
        at(mark(cells, x, y, cell), x, y) == cell,
        forall|ox: int, oy: int|
            0 <= ox < width && 0 <= oy < height && !(ox == x && oy == y) ==> #[trigger] at(
                mark(cells, x, y, cell),
                ox,
                oy,
            ) == at(cells, ox, oy),
{
    let after = mark(cells, x, y, cell);
    assert(cells[y].len() == width);
    assert forall|oy: int| 0 <= oy < height implies (#[trigger] after[oy]).len() == width by {
        if oy != y {
            assert(after[oy] == cells[oy]);
        }
    }
    assert forall|ox: int, oy: int|
        0 <= ox < width && 0 <= oy < height && !(ox == x && oy == y) implies #[trigger] at(
        after,
        ox,
        oy,
    ) == at(cells, ox, oy) by {
        assert(cells[oy].len() == width);
    }
}

/// Recording a direction on a cell lowers the number of blank cells by one
/// if the cell was blank, and keeps it otherwise.
pub proof fn lemma_mark_blanks(
    cells: Seq<Seq<GravityMapCell>>,
    width: int,
    height: int,
    x: int,
    y: int,
    cell: GravityMapCell,
)
    requires
        shaped(cells, width, height),
        0 <= x < width,
        0 <= y < height,
        cell.direction is Some,
    ensures
        blanks(mark(cells, x, y, cell)) + blank_weight(at(cells, x, y)) == blanks(cells),
{
    assert(cells[y].len() == width);
    lemma_row_update(cells[y], x, cell);
    lemma_grid_update(cells, y, cells[y].update(x, cell));
}

/// What a record weighs in the measure of work left: its distance, or one
/// more than `cap` while it has no direction.
pub open spec fn toll(cell: GravityMapCell, cap: int) -> int {
    if cell.direction is None {
        cap + 1
    } else {
        cell.distance as int
    }
}

/// The tolls of one row, added up.
pub open spec fn row_toll(row: Seq<GravityMapCell>, cap: int) -> int
    decreases row.len(),
{
    if row.len() == 0 {
        0
    } else {
        row_toll(row.drop_last(), cap) + toll(row.last(), cap)
    }
}

/// The tolls of all cells, added up. It falls whenever a cell is labelled
/// for the first time or with a smaller distance.
pub open spec fn potential(cells: Seq<Seq<GravityMapCell>>, cap: int) -> int
    decreases cells.len(),
{
    if cells.len() == 0 {
        0
    } else {
        potential(cells.drop_last(), cap) + row_toll(cells.last(), cap)
    }
}

/// Replacing one record of a row changes its toll by the difference between
/// the new record and the old.
pub proof fn lemma_row_toll_update(row: Seq<GravityMapCell>, x: int, cell: GravityMapCell, cap: int)
    requires
        0 <= x < row.len(),
    ensures
        row_toll(row.update(x, cell), cap) + toll(row[x], cap) == row_toll(row, cap) + toll(
            cell,
            cap,
        ),
    decreases row.len(),
{
    let changed = row.update(x, cell);
    if x == row.len() - 1 {
        assert(changed.drop_last() =~= row.drop_last());
    } else {
        assert(changed.drop_last() =~= row.drop_last().update(x, cell));
        lemma_row_toll_update(row.drop_last(), x, cell, cap);
    }
}

/// Replacing one row of a field changes the potential by the difference
/// between the new row and the old.
pub proof fn lemma_grid_toll_update(
    cells: Seq<Seq<GravityMapCell>>,
    y: int,
    row: Seq<GravityMapCell>,
    cap: int,
)
    requires
        0 <= y < cells.len(),
    ensures
        potential(cells.update(y, row), cap) + row_toll(cells[y], cap) == potential(cells, cap)
            + row_toll(row, cap),
    decreases cells.len(),
{
    let changed = cells.update(y, row);
    if y == cells.len() - 1 {
        assert(changed.drop_last() =~= cells.drop_last());
    } else {
        assert(changed.drop_last() =~= cells.drop_last().update(y, row));
        lemma_grid_toll_update(cells.drop_last(), y, row, cap);
    }
}

/// Recording a cell changes the potential by the difference between the new
/// record and the old.
pub proof fn lemma_mark_potential(
    cells: Seq<Seq<GravityMapCell>>,
    width: int,
    height: int,
    x: int,
    y: int,
    cell: GravityMapCell,
    cap: int,
)
    requires
        shaped(cells, width, height),
        0 <= x < width,
        0 <= y < height,
    ensures
        potential(mark(cells, x, y, cell), cap) + toll(at(cells, x, y), cap) == potential(
            cells,
            cap,
        ) + toll(cell, cap),
{
    assert(cells[y].len() == width);
    lemma_row_toll_update(cells[y], x, cell, cap);
    lemma_grid_toll_update(cells, y, cells[y].update(x, cell), cap);
}

/// A row of records that weigh at most `cap + 1` each weighs at most that
/// for every record.
pub proof fn lemma_row_toll_bound(row: Seq<GravityMapCell>, cap: int)
    requires
        0 <= cap,
        forall|x: int| 0 <= x < row.len() ==> toll(#[trigger] row[x], cap) <= cap + 1,
    ensures
        0 <= row_toll(row, cap) <= row.len() * (cap + 1),
    decreases row.len(),
{
    if row.len() > 0 {
        let fewer = row.drop_last();
        assert forall|x: int| 0 <= x < fewer.len() implies toll(#[trigger] fewer[x], cap) <= cap
            + 1 by {
            assert(fewer[x] == row[x]);
        }
        lemma_row_toll_bound(fewer, cap);
        assert(toll(row.last(), cap) <= cap + 1);
        assert(row.len() * (cap + 1) == (row.len() - 1) * (cap + 1) + (cap + 1))
            by (nonlinear_arith);
    } else {
        assert(row.len() * (cap + 1) == 0) by (nonlinear_arith)
            requires
                row.len() == 0,
        ;
    }
}

/// A field of records that weigh at most `cap + 1` each has a potential of
/// at most that for every cell.
pub proof fn lemma_potential_bound(
    cells: Seq<Seq<GravityMapCell>>,
    width: int,
    height: int,
    cap: int,
)
    requires
        shaped(cells, width, height),
        0 <= width,
        0 <= height,
        0 <= cap,
        forall|x: int, y: int|
            0 <= x < width && 0 <= y < height ==> toll(#[trigger] at(cells, x, y), cap) <= cap + 1,
    ensures
        0 <= potential(cells, cap) <= height * (width * (cap + 1)),
    decreases cells.len(),
{
    let each = width * (cap + 1);
    if cells.len() > 0 {
        let fewer = cells.drop_last();
        assert forall|y: int| 0 <= y < height - 1 implies (#[trigger] fewer[y]).len() == width by {
            assert(fewer[y] == cells[y]);
        }
        assert forall|x: int, y: int| 0 <= x < width && 0 <= y < height - 1 implies toll(
            #[trigger] at(fewer, x, y),
            cap,
        ) <= cap + 1 by {
            assert(fewer[y] == cells[y]);
            assert(at(fewer, x, y) == at(cells, x, y));
        }
        lemma_potential_bound(fewer, width, height - 1, cap);
        let last = cells.last();
        assert(last == cells[height - 1]);
        assert forall|x: int| 0 <= x < last.len() implies toll(#[trigger] last[x], cap) <= cap
            + 1 by {
            assert(last[x] == at(cells, x, height - 1));
        }
        lemma_row_toll_bound(last, cap);
        assert(height * each == (height - 1) * each + each) by (nonlinear_arith);
    } else {
        assert(height * each == 0) by (nonlinear_arith)
            requires
                height == 0,
        ;
    }
}

/// The blank field has the shape asked for and no labelled cell.
pub proof fn lemma_blank_field(width: int, height: int)
    requires
        0 <= width,
        0 <= height,
    ensures
        shaped(blank_field(width, height), width, height),
        forall|x: int, y: int|
            0 <= x < width && 0 <= y < height ==> #[trigger] at(blank_field(width, height), x, y)
                == blank_cell(),
{
}

} // verus!
