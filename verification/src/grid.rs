//! A grid of keys that can be turned by quarter turns before it is walked
//! in the order of the host's coordinates.

use crate::scan::slices_value;
use vstd::prelude::*;
use vstd::slice::slice_subrange;

verus! {

/// Degrees to rotate the grid by.
#[derive(PartialEq, Eq, Debug, Clone, Copy, Structural)]
pub enum Rotation {
    Zero,
    Ninety,
    OneEighty,
    TwoSeventy,
}

/// The number of pieces of `n` bytes that `len` bytes are cut into, the
/// last of which may be shorter.
pub open spec fn chunk_count(len: int, n: int) -> int {
    (len + n - 1) / n
}

/// The `i`-th piece of `n` bytes of `s`.
pub open spec fn chunk(s: Seq<u8>, n: int, i: int) -> Seq<u8> {
    s.subrange(
        i * n,
        if (i + 1) * n <= s.len() {
            (i + 1) * n
        } else {
            s.len() as int
        },
    )
}

/// `count` pieces of `n` cover `len` when the last one starts inside it.
proof fn lemma_chunk_count(len: int, n: int, count: int)
    requires
        n > 0,
        count >= 0,
        len >= 0,
        count == 0 ==> len == 0,
        count > 0 ==> (count - 1) * n < len <= count * n,
    ensures
        chunk_count(len, n) == count,
{
    if count == 0 {
        assert((0 + n - 1) / n == 0) by (nonlinear_arith)
            requires
                n > 0,
        ;
    } else {
        assert((len + n - 1) / n == count) by (nonlinear_arith)
            requires
                n > 0,
                count > 0,
                (count - 1) * n < len <= count * n,
        ;
    }
}

/// Cuts a row into its keys: pieces of `n` bytes, in their order. Where the
/// row's length is no multiple of `n`, the last piece is shorter.
pub fn separate_turfs<'s>(s: &'s [u8], n: usize) -> (r: Vec<&'s [u8]>)
    requires
        n > 0,
    ensures
        r@.len() == chunk_count(s@.len() as int, n as int),
        forall|i: int| 0 <= i < r@.len() ==> (#[trigger] r@[i])@ == chunk(s@, n as int, i),
        forall|i: int| 0 <= i < r@.len() ==> 0 < (#[trigger] r@[i])@.len() <= n,
        s@.len() % (n as nat) == 0 ==> forall|i: int|
            0 <= i < r@.len() ==> (#[trigger] r@[i])@.len() == n,
{
    let mut out: Vec<&'s [u8]> = Vec::new();
    let mut pos: usize = 0;
    assert(out@.len() * n == 0) by (nonlinear_arith)
        requires
            out@.len() == 0,
    ;
    while pos < s.len()
        invariant
            n > 0,
            pos <= s.len(),
            pos < s.len() ==> pos == out@.len() * n,
            out@.len() == 0 ==> pos == 0,
            out@.len() > 0 ==> (out@.len() - 1) * n < pos <= out@.len() * n,
            pos == s.len() && out@.len() > 0 ==> (out@.len() - 1) * n < s@.len(),
            forall|i: int| 0 <= i < out@.len() ==> (#[trigger] out@[i])@ == chunk(s@, n as int, i),
            forall|i: int| 0 <= i < out@.len() ==> 0 < (#[trigger] out@[i])@.len() <= n,
            s@.len() % (n as nat) == 0 ==> forall|i: int|
                0 <= i < out@.len() ==> (#[trigger] out@[i])@.len() == n,
        decreases s.len() - pos,
    {
        let end = if s.len() - pos >= n {
            pos + n
        } else {
            s.len()
        };
        let ghost k = out@.len() as int;
        proof {
            assert((k + 1) * n == k * n + n) by (nonlinear_arith);
            assert((k + 1 - 1) * n == k * n) by (nonlinear_arith);
            if s@.len() % (n as nat) == 0 && s.len() - pos < n {
                assert(false) by (nonlinear_arith)
                    requires
                        n > 0,
                        k >= 0,
                        pos == k * n,
                        pos < s@.len() < pos + n,
                        s@.len() % (n as nat) == 0,
                ;
            }
        }
        out.push(slice_subrange(s, pos, end));
        pos = end;
    }
    proof {
        lemma_chunk_count(s@.len() as int, n as int, out@.len() as int);
    }
    out
}

/// The keys of a row: its pieces of `n` bytes.
pub open spec fn chunks_of(s: Seq<u8>, n: int) -> Seq<Seq<u8>> {
    Seq::new(chunk_count(s.len() as int, n) as nat, |i: int| chunk(s, n, i))
}

/// The keys of all the rows, one row after the other.
pub open spec fn all_cells(rows: Seq<Seq<u8>>, n: int) -> Seq<Seq<u8>>
    decreases rows.len(),
{
    if rows.len() == 0 {
        Seq::empty()
    } else {
        all_cells(rows.drop_last(), n) + chunks_of(rows.last(), n)
    }
}

/// Where each row has `width` keys, the keys of all the rows are `width`
/// for each row, and the key at place `x` of row `y` is the `x`-th key of
/// that row.
proof fn lemma_even_cells(rows: Seq<Seq<u8>>, n: int, width: int, y: int, x: int)
    requires
        forall|k: int|
            0 <= k < rows.len() ==> chunk_count((#[trigger] rows[k]).len() as int, n) == width,
        0 <= y < rows.len(),
        0 <= x < width,
    ensures
        all_cells(rows, n).len() == rows.len() * width,
        0 <= y * width + x < rows.len() * width,
        all_cells(rows, n)[y * width + x] == chunk(rows[y], n, x),
    decreases rows.len(),
{
    let front = rows.drop_last();
    let len = rows.len() as int;
    assert((len - 1) * width + width == len * width) by (nonlinear_arith);
    assert(0 <= y * width + x) by (nonlinear_arith)
        requires
            0 <= y,
            0 <= x,
            0 <= width,
    ;
    if len == 1 {
        assert(all_cells(front, n) =~= Seq::<Seq<u8>>::empty());
        assert(y * width + x == x) by (nonlinear_arith)
            requires
                y == 0,
        ;
    } else if y == len - 1 {
        lemma_even_cells(front, n, width, 0, x);
    } else {
        lemma_even_cells(front, n, width, y, x);
        assert(y * width + x < (len - 1) * width) by (nonlinear_arith)
            requires
                0 <= y < len - 1,
                0 <= x < width,
        ;
    }
}

/// Makes `array2d::Array2D` known as a type whose inside is not looked
/// into: a fixed-size array of rows and columns.
#[verifier::external_type_specification]
#[verifier::external_body]
#[verifier::reject_recursive_types(T)]
pub struct ExArray2D<T>(array2d::Array2D<T>);

/// The keys that an `array2d::Array2D` holds, row by row from the first.
pub uninterp spec fn array_rows(a: array2d::Array2D<&[u8]>) -> Seq<Seq<Seq<u8>>>;

/// The number of columns of an `array2d::Array2D`, which it has even
/// where it has no row.
pub uninterp spec fn array_width(a: array2d::Array2D<&[u8]>) -> nat;

/// Whether the rows of `a` all have its width, and it holds no more cells
/// than a `usize` counts.
pub open spec fn array_shaped(a: array2d::Array2D<&[u8]>) -> bool {
    &&& array_rows(a).len() * array_width(a) <= usize::MAX
    &&& forall|y: int|
        0 <= y < array_rows(a).len() ==> (#[trigger] array_rows(a)[y]).len() == array_width(a)
}

/// Fills an array of `rows` rows and `columns` columns with the first
/// `rows * columns` of `cells`, row by row.
///
/// Trusted: the body calls `array2d::Array2D::from_iter_row_major`, which
/// takes that many items from the iterator in row-major order and fails
/// where the iterator yields fewer.
#[verifier::external_body]
fn array_from_cells<'a>(cells: Vec<&'a [u8]>, rows: usize, columns: usize) -> (r: Option<
    array2d::Array2D<&'a [u8]>,
>)
    requires
        rows * columns <= usize::MAX,
    ensures
        r is Some <==> cells@.len() >= rows * columns,
        r matches Some(a) ==> array_shaped(a) && array_rows(a).len() == rows && array_width(a)
            == columns && forall|y: int, x: int|
            0 <= y < rows && 0 <= x < columns ==> (#[trigger] array_rows(a)[y][x]) == cells@[y
                * columns + x]@,
{
    array2d::Array2D::from_iter_row_major(cells.into_iter(), rows, columns).ok()
}

/// The number of rows of `a`.
///
/// Trusted: the body calls `array2d::Array2D::num_rows`.
#[verifier::external_body]
fn array_num_rows(a: &array2d::Array2D<&[u8]>) -> (r: usize)
    ensures
        r == array_rows(*a).len(),
{
    a.num_rows()
}

/// The number of columns of `a`.
///
/// Trusted: the body calls `array2d::Array2D::num_columns`.
#[verifier::external_body]
fn array_num_columns(a: &array2d::Array2D<&[u8]>) -> (r: usize)
    ensures
        r == array_width(*a),
{
    a.num_columns()
}

/// The cells of `a` with their row and column, row by row.
///
/// Trusted: the body walks `array2d::Array2D::enumerate_row_major`, which
/// yields every index `(row, column)` with its cell, the rows in rising
/// order and the columns in rising order inside each row.
#[verifier::external_body]
fn array_enumerate<'a>(a: &array2d::Array2D<&'a [u8]>) -> (r: Vec<((usize, usize), &'a [u8])>)
    requires
        array_shaped(*a),
    ensures
        r@.len() == array_rows(*a).len() * array_width(*a),
        forall|y: int, x: int|
            0 <= y < array_rows(*a).len() && 0 <= x < array_width(*a) ==> r@[y * array_width(*a)
                + x].0 == (y as usize, x as usize) && r@[y * array_width(*a) + x].1@
                == #[trigger] array_rows(*a)[y][x],
{
    a.enumerate_row_major().map(|(at, cell)| (at, *cell)).collect()
}

/// The columns of `a`, in rising order, each from its top cell down.
///
/// Trusted: the body walks `array2d::Array2D::columns_iter`, which yields
/// for each column in rising order the cells of that column in the order
/// of the rows.
#[verifier::external_body]
fn array_columns<'a>(a: &array2d::Array2D<&'a [u8]>) -> (r: Vec<Vec<&'a [u8]>>)
    requires
        array_shaped(*a),
    ensures
        r@.len() == array_width(*a),
        forall|x: int| 0 <= x < r@.len() ==> (#[trigger] r@[x])@.len() == array_rows(*a).len(),
        forall|y: int, x: int|
            0 <= y < array_rows(*a).len() && 0 <= x < array_width(*a) ==> r@[x]@[y]@
                == #[trigger] array_rows(*a)[y][x],
{
    a.columns_iter().map(|column| column.copied().collect()).collect()
}

/// Why a grid could not be made.
#[derive(Clone, Copy, Debug, PartialEq, Eq, Structural)]
pub enum GridError {
    /// The block has no row.
    NoRows,
    /// The length of a key is zero.
    NoKeyLength,
    /// The grid, placed at its anchor, reaches past the largest coordinate,
    /// or holds more cells than can be counted.
    TooLarge,
    /// A row does not hold as many keys as the first row.
    UnevenRows,
}

/// A grid of keys at an anchor, the lower left corner of the grid in the
/// host's coordinates.
pub struct Grid<'a> {
    bottom_left: (usize, usize, usize),
    array: array2d::Array2D<&'a [u8]>,
}

/// The larger of two numbers.
pub open spec fn larger(a: int, b: int) -> int {
    if a >= b {
        a
    } else {
        b
    }
}

/// Whether a grid of `rows` by `columns` cells at `anchor` stays inside
/// the coordinates that a `usize` holds, however it is turned.
pub open spec fn grid_fits(anchor: (usize, usize, usize), rows: int, columns: int) -> bool {
    &&& rows * columns <= usize::MAX
    &&& anchor.0 + larger(rows, columns) <= usize::MAX
    &&& anchor.1 + larger(rows, columns) <= usize::MAX
}

/// Whether each row holds as many keys as the first.
pub open spec fn even_rows(block: Seq<Seq<u8>>, key_len: int) -> bool {
    forall|y: int|
        0 <= y < block.len() ==> chunk_count((#[trigger] block[y]).len() as int, key_len)
            == chunk_count(block[0].len() as int, key_len)
}

/// Why no grid can be made of `block`, if none can.
pub open spec fn grid_error(
    anchor: (usize, usize, usize),
    key_len: int,
    block: Seq<Seq<u8>>,
) -> Option<GridError> {
    if block.len() == 0 {
        Some(GridError::NoRows)
    } else if key_len <= 0 {
        Some(GridError::NoKeyLength)
    } else if !grid_fits(
        anchor,
        block.len() as int,
        chunk_count(block[0].len() as int, key_len),
    ) {
        Some(GridError::TooLarge)
    } else if !even_rows(block, key_len) {
        Some(GridError::UnevenRows)
    } else {
        None
    }
}

/// The number of rows that a grid of `rows` by `columns` cells has after
/// the turn.
pub open spec fn turned_rows(rows: int, columns: int, rotation: Rotation) -> int {
    match rotation {
        Rotation::Zero | Rotation::OneEighty => rows,
        Rotation::Ninety | Rotation::TwoSeventy => columns,
    }
}

/// The number of columns that it has after the turn.
pub open spec fn turned_columns(rows: int, columns: int, rotation: Rotation) -> int {
    match rotation {
        Rotation::Zero | Rotation::OneEighty => columns,
        Rotation::Ninety | Rotation::TwoSeventy => rows,
    }
}

/// The row and column, before the turn, of the cell that stands in row `j`
/// and column `i` after it, rows counted from the top.
pub open spec fn turned_from(rows: int, columns: int, rotation: Rotation, j: int, i: int) -> (
    int,
    int,
) {
    match rotation {
        Rotation::Zero => (j, i),
        Rotation::OneEighty => (rows - 1 - j, columns - 1 - i),
        Rotation::Ninety => (i, columns - 1 - j),
        Rotation::TwoSeventy => (rows - 1 - i, j),
    }
}

/// Whether `item` is the coordinate and the key `want`.
pub open spec fn placed(
    item: ((usize, usize, usize), &[u8]),
    want: ((int, int, int), Seq<u8>),
) -> bool {
    item.1@ == want.1 && item.0.0 == want.0.0 && item.0.1 == want.0.1 && item.0.2 == want.0.2
}

impl<'a> Grid<'a> {
    #[verifier::type_invariant]
    spec fn well_formed(&self) -> bool {
        &&& array_shaped(self.array)
        &&& grid_fits(
            self.bottom_left,
            array_rows(self.array).len() as int,
            array_width(self.array) as int,
        )
    }

    /// The lower left corner.
    pub closed spec fn anchor(&self) -> (usize, usize, usize) {
        self.bottom_left
    }

    /// The keys, row by row from the top.
    pub closed spec fn cells(&self) -> Seq<Seq<Seq<u8>>> {
        array_rows(self.array)
    }

    /// The number of columns.
    pub closed spec fn width(&self) -> nat {
        array_width(self.array)
    }

    /// What stands at place `i` of row `j` after the turn, rows counted
    /// from the top: its coordinate and its key. The top row has the
    /// largest `y`.
    pub open spec fn turned(&self, rotation: Rotation, j: int, i: int) -> (
        (int, int, int),
        Seq<u8>,
    ) {
        let rows = self.cells().len() as int;
        let columns = self.width() as int;
        let from = turned_from(rows, columns, rotation, j, i);
        (
            (
                self.anchor().0 + i,
                self.anchor().1 + (turned_rows(rows, columns, rotation) - 1 - j),
                self.anchor().2 as int,
            ),
            self.cells()[from.0][from.1],
        )
    }

    /// Makes the grid of the rows of a block whose keys have `key_len`
    /// bytes. The grid has as many rows as the block and as many columns
    /// as the first row has keys, which every row must have; each row of
    /// the grid holds the keys of its row of the block.
    pub fn new(
        bottom_left: (usize, usize, usize),
        key_len: usize,
        block: &[&'a [u8]],
    ) -> (r: Result<Grid<'a>, GridError>)
        ensures
            (match r {
                Ok(grid) => {
                    &&& grid_error(bottom_left, key_len as int, slices_value(block@)) is None
                    &&& grid.anchor() == bottom_left
                    &&& grid.cells().len() == block@.len()
                    &&& grid.width() == chunk_count(block@[0]@.len() as int, key_len as int)
                    &&& forall|y: int|
                        0 <= y < grid.cells().len() ==> (#[trigger] grid.cells()[y]).len()
                            == grid.width()
                    &&& forall|y: int, x: int|
                        0 <= y < grid.cells().len() && 0 <= x < grid.width() ==> (
                        #[trigger] grid.cells()[y][x]) == chunk(block@[y]@, key_len as int, x)
                },
                Err(e) => grid_error(bottom_left, key_len as int, slices_value(block@)) == Some(e),
            }),
    {
        let ghost rows_spec = slices_value(block@);
        if block.len() == 0 {
            return Err(GridError::NoRows);
        }
        if key_len == 0 {
            return Err(GridError::NoKeyLength);
        }
        let num_rows = block.len();
        assert(rows_spec[0] == block@[0]@);
        let num_columns = separate_turfs(block[0], key_len).len();
        let side = if num_rows >= num_columns {
            num_rows
        } else {
            num_columns
        };
        if num_rows.checked_mul(num_columns).is_none() || bottom_left.0.checked_add(side).is_none()
            || bottom_left.1.checked_add(side).is_none() {
            return Err(GridError::TooLarge);
        }
        let mut cells: Vec<&'a [u8]> = Vec::new();
        let mut y: usize = 0;
        while y < block.len()
            invariant
                key_len > 0,
                y <= block@.len(),
                block@.len() > 0,
                rows_spec == slices_value(block@),
                num_columns == chunk_count(rows_spec[0].len() as int, key_len as int),
                grid_fits(bottom_left, block@.len() as int, num_columns as int),
                forall|k: int|
                    0 <= k < y ==> chunk_count(
                        (#[trigger] rows_spec[k]).len() as int,
                        key_len as int,
                    ) == num_columns,
                slices_value(cells@) == all_cells(rows_spec.take(y as int), key_len as int),
                cells@.len() == y * num_columns,
            decreases block@.len() - y,
        {
            let mut keys = separate_turfs(block[y], key_len);
            assert(rows_spec[y as int] == block@[y as int]@);
            if keys.len() != num_columns {
                return Err(GridError::UnevenRows);
            }
            proof {
                let upto = rows_spec.take(y + 1);
                assert(upto.drop_last() =~= rows_spec.take(y as int));
                assert(upto.last() == block@[y as int]@);
                assert(slices_value(keys@) =~= chunks_of(block@[y as int]@, key_len as int));
                assert(slices_value(cells@ + keys@) =~= slices_value(cells@) + slices_value(keys@));
                assert((y + 1) * num_columns == y * num_columns + num_columns) by (nonlinear_arith);
            }
            cells.append(&mut keys);
            y = y + 1;
        }
        proof {
            assert(rows_spec.take(block@.len() as int) =~= rows_spec);
        }
        let ghost filled = cells@;
        let array = array_from_cells(cells, num_rows, num_columns).unwrap();
        proof {
            assert forall|y: int, x: int|
                0 <= y < num_rows && 0 <= x < num_columns implies (
            #[trigger] array_rows(array)[y][x]) == chunk(block@[y]@, key_len as int, x) by {
                lemma_even_cells(rows_spec, key_len as int, num_columns as int, y, x);
                assert(rows_spec[y] == block@[y]@);
                assert(y * num_columns + x < num_rows * num_columns) by (nonlinear_arith)
                    requires
                        0 <= y < num_rows,
                        0 <= x < num_columns,
                ;
                assert(0 <= y * num_columns + x) by (nonlinear_arith)
                    requires
                        0 <= y,
                        0 <= x,
                        0 <= num_columns,
                ;
                assert(slices_value(filled)[y * num_columns + x] == filled[y * num_columns
                    + x]@);
            }
        }
        Ok(Grid { bottom_left, array })
    }

    /// Walks the turned grid in the order of the host: row by row from the
    /// top, each row from the left. The result has a place for each cell.
    pub fn rotate(&self, rotation: Rotation) -> (r: Vec<((usize, usize, usize), &'a [u8])>)
        ensures
            r@.len() == self.cells().len() * self.width(),
            forall|j: int, i: int|
                0 <= j < turned_rows(self.cells().len() as int, self.width() as int, rotation) && 0
                    <= i < turned_columns(
                    self.cells().len() as int,
                    self.width() as int,
                    rotation,
                ) ==> placed(
                    r@[j * turned_columns(
                        self.cells().len() as int,
                        self.width() as int,
                        rotation,
                    ) + i],
                    #[trigger] self.turned(rotation, j, i),
                ),
    {
        proof {
            use_type_invariant(self);
        }
        let rows = array_num_rows(&self.array);
        let columns = array_num_columns(&self.array);
        let flat = array_enumerate(&self.array);
        let by_column = array_columns(&self.array);
        let (out_rows, out_columns) = match rotation {
            Rotation::Zero | Rotation::OneEighty => (rows, columns),
            Rotation::Ninety | Rotation::TwoSeventy => (columns, rows),
        };
        assert(out_rows * out_columns == rows * columns) by (nonlinear_arith)
            requires
                (out_rows == rows && out_columns == columns) || (out_rows == columns && out_columns
                    == rows),
        ;
        let mut out: Vec<((usize, usize, usize), &'a [u8])> = Vec::new();
        let mut j: usize = 0;
        while j < out_rows
            invariant
                j <= out_rows,
                rows == self.cells().len(),
                columns == self.width(),
                self.well_formed(),
                out_rows == turned_rows(rows as int, columns as int, rotation),
                out_columns == turned_columns(rows as int, columns as int, rotation),
                flat@.len() == rows * columns,
                forall|y: int, x: int|
                    0 <= y < rows && 0 <= x < columns ==> flat@[y * columns + x].1@
                        == #[trigger] self.cells()[y][x],
                by_column@.len() == columns,
                forall|x: int| 0 <= x < columns ==> (#[trigger] by_column@[x])@.len() == rows,
                forall|y: int, x: int|
                    0 <= y < rows && 0 <= x < columns ==> by_column@[x]@[y]@
                        == #[trigger] self.cells()[y][x],
                out@.len() == j * out_columns,
                forall|jj: int, ii: int|
                    0 <= jj < j && 0 <= ii < out_columns ==> placed(
                        out@[jj * out_columns + ii],
                        #[trigger] self.turned(rotation, jj, ii),
                    ),
            decreases out_rows - j,
        {
            let mut i: usize = 0;
            while i < out_columns
                invariant
                    j < out_rows,
                    i <= out_columns,
                    rows == self.cells().len(),
                    columns == self.width(),
                    self.well_formed(),
                    out_rows == turned_rows(rows as int, columns as int, rotation),
                    out_columns == turned_columns(rows as int, columns as int, rotation),
                    flat@.len() == rows * columns,
                    forall|y: int, x: int|
                        0 <= y < rows && 0 <= x < columns ==> flat@[y * columns + x].1@
                            == #[trigger] self.cells()[y][x],
                    by_column@.len() == columns,
                    forall|x: int| 0 <= x < columns ==> (#[trigger] by_column@[x])@.len() == rows,
                    forall|y: int, x: int|
                        0 <= y < rows && 0 <= x < columns ==> by_column@[x]@[y]@
                            == #[trigger] self.cells()[y][x],
                    out@.len() == j * out_columns + i,
                    forall|jj: int, ii: int|
                        (0 <= jj < j && 0 <= ii < out_columns) || (jj == j && 0 <= ii < i)
                            ==> placed(
                            out@[jj * out_columns + ii],
                            #[trigger] self.turned(rotation, jj, ii),
                        ),
                decreases out_columns - i,
            {
                let key = match rotation {
                    Rotation::Zero => {
                        proof {
                            lemma_flat_index(j as int, i as int, rows as int, columns as int);
                            assert(flat@[j * columns + i].1@ == self.cells()[j as int][i as int]);
                        }
                        flat[j * columns + i].1
                    },
                    Rotation::OneEighty => {
                        proof {
                            lemma_flat_index(
                                rows - 1 - j,
                                columns - 1 - i,
                                rows as int,
                                columns as int,
                            );
                            assert(flat@[(rows - 1 - j) * columns + (columns - 1 - i)].1@
                                == self.cells()[rows - 1 - j][columns - 1 - i]);
                        }
                        flat[(rows - 1 - j) * columns + (columns - 1 - i)].1
                    },
                    Rotation::Ninety => {
                        assert(by_column@[columns - 1 - j]@[i as int]@
                            == self.cells()[i as int][columns - 1 - j]);
                        by_column[columns - 1 - j][i]
                    },
                    Rotation::TwoSeventy => {
                        assert(by_column@[j as int]@[rows - 1 - i]@ == self.cells()[rows - 1
                            - i][j as int]);
                        by_column[j][rows - 1 - i]
                    },
                };
                let at = (
                    self.bottom_left.0 + i,
                    self.bottom_left.1 + (out_rows - 1 - j),
                    self.bottom_left.2,
                );
                let ghost before = out@;
                out.push((at, key));
                proof {
                    assert forall|jj: int, ii: int|
                        (0 <= jj < j && 0 <= ii < out_columns) || (jj == j && 0 <= ii < i
                            + 1) implies placed(
                        out@[jj * out_columns + ii],
                        #[trigger] self.turned(rotation, jj, ii),
                    ) by {
                        if jj == j && ii == i {
                        } else {
                            lemma_flat_order(jj, ii, j as int, i as int, out_columns as int);
                            assert(out@[jj * out_columns + ii] == before[jj * out_columns + ii]);
                        }
                    }
                }
                i = i + 1;
            }
            proof {
                assert((j + 1) * out_columns == j * out_columns + out_columns) by (nonlinear_arith);
            }
            j = j + 1;
        }
        out
    }
}

/// The place of a cell in a row-major list lies inside the list.
proof fn lemma_flat_index(y: int, x: int, rows: int, columns: int)
    requires
        0 <= y < rows,
        0 <= x < columns,
    ensures
        0 <= y * columns + x < rows * columns,
{
    assert(0 <= y * columns + x < rows * columns) by (nonlinear_arith)
        requires
            0 <= y < rows,
            0 <= x < columns,
    ;
}

/// An earlier cell has a smaller place in a row-major list.
proof fn lemma_flat_order(jj: int, ii: int, j: int, i: int, columns: int)
    requires
        0 <= ii < columns,
        0 <= i < columns,
        0 <= jj,
        jj < j || (jj == j && ii < i),
    ensures
        0 <= jj * columns + ii < j * columns + i,
{
    assert(0 <= jj * columns) by (nonlinear_arith)
        requires
            0 <= jj,
            0 <= columns,
    ;
    if jj < j {
        assert(jj * columns + columns <= j * columns) by (nonlinear_arith)
            requires
                jj + 1 <= j,
                0 < columns,
        ;
    }
}

/// A turn rearranges the cells and loses none: each place of the turned
/// grid takes its key from a cell of the grid, no two places from the
/// same cell, and each cell gives its key to the place that `turned_to`
/// names.
pub proof fn lemma_turn_rearranges(rows: int, columns: int, rotation: Rotation, j: int, i: int)
    requires
        0 <= j < turned_rows(rows, columns, rotation),
        0 <= i < turned_columns(rows, columns, rotation),
    ensures
        0 <= turned_from(rows, columns, rotation, j, i).0 < rows,
        0 <= turned_from(rows, columns, rotation, j, i).1 < columns,
        turned_to(
            rows,
            columns,
            rotation,
            turned_from(rows, columns, rotation, j, i).0,
            turned_from(rows, columns, rotation, j, i).1,
        ) == (j, i),
{
}

/// The row and column, after the turn, of the cell that stands in row `y`
/// and column `x` before it.
pub open spec fn turned_to(rows: int, columns: int, rotation: Rotation, y: int, x: int) -> (
    int,
    int,
) {
    match rotation {
        Rotation::Zero => (y, x),
        Rotation::OneEighty => (rows - 1 - y, columns - 1 - x),
        Rotation::Ninety => (columns - 1 - x, y),
        Rotation::TwoSeventy => (x, rows - 1 - y),
    }
}

/// Every cell has a place in the turned grid, which takes its key from
/// that cell.
pub proof fn lemma_turn_keeps_cells(rows: int, columns: int, rotation: Rotation, y: int, x: int)
    requires
        0 <= y < rows,
        0 <= x < columns,
    ensures
        0 <= turned_to(rows, columns, rotation, y, x).0 < turned_rows(rows, columns, rotation),
        0 <= turned_to(rows, columns, rotation, y, x).1 < turned_columns(rows, columns, rotation),
        turned_from(
            rows,
            columns,
            rotation,
            turned_to(rows, columns, rotation, y, x).0,
            turned_to(rows, columns, rotation, y, x).1,
        ) == (y, x),
{
}

/// Two quarter turns are a half turn, and a quarter turn and a three
/// quarter turn undo each other.
pub proof fn lemma_turns_add_up(rows: int, columns: int, j: int, i: int)
    ensures
        turned_from(
            rows,
            columns,
            Rotation::Ninety,
            turned_from(columns, rows, Rotation::Ninety, j, i).0,
            turned_from(columns, rows, Rotation::Ninety, j, i).1,
        ) == turned_from(rows, columns, Rotation::OneEighty, j, i),
        turned_from(
            rows,
            columns,
            Rotation::Ninety,
            turned_from(columns, rows, Rotation::TwoSeventy, j, i).0,
            turned_from(columns, rows, Rotation::TwoSeventy, j, i).1,
        ) == turned_from(rows, columns, Rotation::Zero, j, i),
        turned_from(
            rows,
            columns,
            Rotation::OneEighty,
            turned_from(rows, columns, Rotation::OneEighty, j, i).0,
            turned_from(rows, columns, Rotation::OneEighty, j, i).1,
        ) == (j, i),
{
}

} // verus!
