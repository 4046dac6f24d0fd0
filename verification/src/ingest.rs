use crate::graph::Link;
use crate::solv::links_of;
use crate::solv::Edge;
use vstd::prelude::*;

verus! {

/// Why a cell of a matrix holds no weight.
#[derive(Debug, Clone, Copy, PartialEq, Eq, Structural)]
pub enum WeightError {
    /// The cell is empty.
    Empty,
    /// The cell holds something else than decimal digits after an optional `+`.
    InvalidDigit,
    /// The number is beyond the numbers of the machine.
    Overflow,
}

/// The number that decimal digits stand for, read from the left: the first byte that is no
/// digit ends the reading, and so does the first digit with which the number would pass
/// the numbers of the machine.
pub open spec fn digits_weight(digits: Seq<u8>) -> Result<usize, WeightError>
    decreases digits.len(),
{
    if digits.len() == 0 {
        Ok(0)
    } else {
        match digits_weight(digits.drop_last()) {
            Err(error) => Err(error),
            Ok(before) => if digits.last() < 48 || digits.last() > 57 {
                Err(WeightError::InvalidDigit)
            } else if before * 10 + (digits.last() - 48) > usize::MAX {
                Err(WeightError::Overflow)
            } else {
                Ok((before * 10 + (digits.last() - 48)) as usize)
            },
        }
    }
}

/// The weight that a cell holds: decimal digits, after a `+` or without. A sign alone is
/// no weight.
pub open spec fn weight_of(cell: Seq<u8>) -> Result<usize, WeightError> {
    if cell.len() == 0 {
        Err(WeightError::Empty)
    } else if cell.len() == 1 && (cell[0] == 43 || cell[0] == 45) {
        Err(WeightError::InvalidDigit)
    } else if cell[0] == 43 {
        digits_weight(cell.skip(1))
    } else {
        digits_weight(cell)
    }
}

/// The cell marks that there is no edge: it holds `-` and nothing else.
pub open spec fn is_absent(cell: Seq<u8>) -> bool {
    cell.len() == 1 && cell[0] == 45
}

/// The link of weight `weight` between the vertices numbered `row` and `col`.
pub open spec fn link_between(row: usize, col: usize, weight: usize) -> Link {
    Link {
        u: if row <= col {
            row as nat
        } else {
            col as nat
        },
        v: if row <= col {
            col as nat
        } else {
            row as nat
        },
        weight: weight as nat,
    }
}

/// The cells of a row as lists of bytes.
pub open spec fn bytes_of(cells: Seq<Vec<u8>>) -> Seq<Seq<u8>> {
    cells.map_values(|cell: Vec<u8>| cell@)
}

/// The links that row `row` of a matrix gives: for each cell that does not mark an absent
/// edge, a link between the vertex of the row and the vertex of the column of the cell,
/// with the weight that the cell holds. The first cell that holds no weight is the error of
/// the row.
pub open spec fn row_links(row: usize, cells: Seq<Seq<u8>>) -> Result<Seq<Link>, WeightError>
    decreases cells.len(),
{
    if cells.len() == 0 {
        Ok(Seq::empty())
    } else {
        match row_links(row, cells.drop_last()) {
            Err(error) => Err(error),
            Ok(links) => if is_absent(cells.last()) {
                Ok(links)
            } else {
                match weight_of(cells.last()) {
                    Err(error) => Err(error),
                    Ok(weight) => Ok(
                        links.push(link_between(row, (cells.len() - 1) as usize, weight)),
                    ),
                }
            },
        }
    }
}

/// Reads decimal digits.
fn parse_digits(cell: &[u8], from: usize) -> (weight: Result<usize, WeightError>)
    requires
        from <= cell.len(),
    ensures
        weight == digits_weight(cell@.skip(from as int)),
{
    let ghost digits = cell@.skip(from as int);
    let mut value: usize = 0;
    let mut i: usize = from;
    assert(digits.take(0) =~= Seq::<u8>::empty());
    while i < cell.len()
        invariant
            from <= i <= cell.len(),
            digits == cell@.skip(from as int),
            digits_weight(digits.take(i - from)) == Ok::<usize, WeightError>(value),
        decreases cell.len() - i,
    {
        let byte = cell[i];
        proof {
            let read = digits.take(i - from + 1);
            assert(read.drop_last() =~= digits.take(i - from));
            assert(read.last() == byte);
            lemma_digits_weight_prefix(digits, i - from + 1);
        }
        if byte < 48 || byte > 57 {
            return Err(WeightError::InvalidDigit);
        }
        let digit = (byte - 48) as usize;
        match value.checked_mul(10) {
            None => {
                return Err(WeightError::Overflow);
            },
            Some(tens) => match tens.checked_add(digit) {
                None => {
                    return Err(WeightError::Overflow);
                },
                Some(sum) => {
                    value = sum;
                },
            },
        }
        i += 1;
    }
    assert(digits.take(i - from) =~= digits);
    Ok(value)
}

/// An error in the first digits is the error of all the digits.
pub proof fn lemma_digits_weight_prefix(digits: Seq<u8>, n: int)
    requires
        0 <= n <= digits.len(),
    ensures
        digits_weight(digits.take(n)) is Err ==> digits_weight(digits) == digits_weight(
            digits.take(n),
        ),
    decreases digits.len(),
{
    if n < digits.len() {
        assert(digits.drop_last().take(n) =~= digits.take(n));
        lemma_digits_weight_prefix(digits.drop_last(), n);
    } else {
        assert(digits.take(n) =~= digits);
    }
}

/// The weight that a cell holds, written in decimal digits, with a `+` before them or
/// without.
pub fn parse_weight(cell: &[u8]) -> (weight: Result<usize, WeightError>)
    ensures
        weight == weight_of(cell@),
{
    if cell.len() == 0 {
        Err(WeightError::Empty)
    } else if cell.len() == 1 && (cell[0] == 43 || cell[0] == 45) {
        Err(WeightError::InvalidDigit)
    } else if cell[0] == 43 {
        parse_digits(cell, 1)
    } else {
        assert(cell@.skip(0) =~= cell@);
        parse_digits(cell, 0)
    }
}

/// The edges that row `row` of a matrix gives, in the order of the cells, or the error of
/// the first cell that neither marks an absent edge nor holds a weight.
pub fn edges_of_row(row: usize, cells: &Vec<Vec<u8>>) -> (edges: Result<Vec<Edge>, WeightError>)
    ensures
        match row_links(row, bytes_of(cells@)) {
            Ok(links) => edges is Ok && links_of(edges->Ok_0@) == links && forall|k: int|
                0 <= k < edges->Ok_0.len() ==> (#[trigger] edges->Ok_0[k]).wf(),
            Err(error) => edges == Err::<Vec<Edge>, WeightError>(error),
        },
{
    let ghost all = bytes_of(cells@);
    let mut edges: Vec<Edge> = Vec::new();
    let mut col: usize = 0;
    assert(all.take(0) =~= Seq::<Seq<u8>>::empty());
    assert(links_of(edges@) =~= Seq::<Link>::empty());
    while col < cells.len()
        invariant
            col <= cells.len(),
            all == bytes_of(cells@),
            row_links(row, all.take(col as int)) == Ok::<Seq<Link>, WeightError>(
                links_of(edges@),
            ),
            forall|k: int| 0 <= k < edges.len() ==> (#[trigger] edges[k]).wf(),
        decreases cells.len() - col,
    {
        let cell = cells[col].as_slice();
        proof {
            let read = all.take(col + 1);
            assert(read.drop_last() =~= all.take(col as int));
            assert(read.last() == cell@);
            lemma_row_links_prefix(row, all, col + 1);
        }
        if !(cell.len() == 1 && cell[0] == 45) {
            match parse_weight(cell) {
                Err(error) => {
                    return Err(error);
                },
                Ok(weight) => {
                    let ghost before = edges@;
                    let edge = Edge::new(row, col, weight);
                    edges.push(edge);
                    assert(links_of(edges@) =~= links_of(before).push(
                        link_between(row, col, weight),
                    ));
                },
            }
        }
        col += 1;
    }
    assert(all.take(col as int) =~= all);
    Ok(edges)
}

/// An error in the first cells of a row is the error of the row.
pub proof fn lemma_row_links_prefix(row: usize, cells: Seq<Seq<u8>>, n: int)
    requires
        0 <= n <= cells.len(),
    ensures
        row_links(row, cells.take(n)) is Err ==> row_links(row, cells) == row_links(
            row,
            cells.take(n),
        ),
    decreases cells.len(),
{
    if n < cells.len() {
        assert(cells.drop_last().take(n) =~= cells.take(n));
        lemma_row_links_prefix(row, cells.drop_last(), n);
    } else {
        assert(cells.take(n) =~= cells);
    }
}

} // verus!
