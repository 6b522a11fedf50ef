//! Square grids stored row by row, with bounded and neighbour-aware access.

use vstd::prelude::*;

use crate::error::WfcError;

verus! {

/// Horizontal component of the `k`-th offset of the Moore neighbourhood.
///
/// The eight offsets are, in order, (-1,-1) (-1,0) (-1,1) (0,-1) (0,1)
/// (1,-1) (1,0) (1,1); offset `7 - k` is the opposite of offset `k`.
pub open spec fn offset_x(k: int) -> int {
    if k < 3 {
        -1
    } else if k < 5 {
        0
    } else {
        1
    }
}

/// Vertical component of the `k`-th offset of the Moore neighbourhood.
pub open spec fn offset_y(k: int) -> int {
    if k == 0 || k == 3 || k == 5 {
        -1
    } else if k == 1 || k == 6 {
        0
    } else {
        1
    }
}

/// Flat index of the `k`-th neighbour of cell `c` in an `n`×`n` grid laid
/// out row by row, or `None` where that neighbour lies beyond an edge.
/// Nothing wraps around.
pub open spec fn neighbor_cell(n: int, c: int, k: int) -> Option<int> {
    let nx = c % n + offset_x(k);
    let ny = c / n + offset_y(k);
    if 0 <= nx < n && 0 <= ny < n {
        Some(nx + ny * n)
    } else {
        None
    }
}

/// The `k`-th offset of the Moore neighbourhood.
pub fn offset(k: usize) -> (r: (isize, isize))
    requires
        k < 8,
    ensures
        r.0 == offset_x(k as int),
        r.1 == offset_y(k as int),
{
    let dx: isize = if k < 3 {
        -1
    } else if k < 5 {
        0
    } else {
        1
    };
    let dy: isize = if k == 0 || k == 3 || k == 5 {
        -1
    } else if k == 1 || k == 6 {
        0
    } else {
        1
    };
    (dx, dy)
}

/// Coordinates and flat index of a cell agree.
pub proof fn lemma_cell_coords(n: int, x: int, y: int)
    requires
        0 <= x < n,
        0 <= y < n,
    ensures
        (x + y * n) % n == x,
        (x + y * n) / n == y,
        0 <= y * n <= x + y * n < n * n,
{
    vstd::arithmetic::div_mod::lemma_fundamental_div_mod_converse(x + y * n, n, y, x);
    assert(x + y * n < n * n) by (nonlinear_arith)
        requires
            0 <= x < n,
            0 <= y < n,
    ;
    assert(0 <= y * n) by (nonlinear_arith)
        requires
            0 <= x,
            0 <= y,
            0 <= n,
    ;
}

/// A cell of the grid lies within its bounds when read by coordinates.
pub proof fn lemma_index_coords(n: int, c: int)
    requires
        0 <= n,
        0 <= c < n * n,
    ensures
        0 <= c % n < n,
        0 <= c / n < n,
        c == c % n + (c / n) * n,
{
    assert(n > 0) by (nonlinear_arith)
        requires
            0 <= n,
            0 <= c < n * n,
    ;
    vstd::arithmetic::div_mod::lemma_fundamental_div_mod(c, n);
    assert(c / n < n) by (nonlinear_arith)
        requires
            0 <= c < n * n,
            n > 0,
            c == n * (c / n) + c % n,
            0 <= c % n,
    ;
    assert(0 <= c / n) by (nonlinear_arith)
        requires
            0 <= c,
            n > 0,
    ;
    assert((c / n) * n == n * (c / n)) by (nonlinear_arith);
}

/// Neighbourhood is symmetric: if `q` is the `k`-th neighbour of `c`, then
/// `c` is the opposite neighbour of `q`.
pub proof fn lemma_neighbor_symmetric(n: int, c: int, k: int)
    requires
        0 <= n,
        0 <= c < n * n,
        0 <= k < 8,
        neighbor_cell(n, c, k) is Some,
    ensures
        neighbor_cell(n, neighbor_cell(n, c, k)->0, 7 - k) == Some(c),
        0 <= neighbor_cell(n, c, k)->0 < n * n,
        neighbor_cell(n, c, k)->0 != c,
{
    lemma_index_coords(n, c);
    let nx = c % n + offset_x(k);
    let ny = c / n + offset_y(k);
    lemma_cell_coords(n, nx, ny);
}

/// In a grid of side 2 or more, every cell has a neighbour.
pub proof fn lemma_has_neighbor(n: int, c: int)
    requires
        n > 1,
        0 <= c < n * n,
    ensures
        exists|k: int| 0 <= k < 8 && (#[trigger] neighbor_cell(n, c, k)) is Some,
{
    lemma_index_coords(n, c);
    if c % n + 1 < n {
        assert(neighbor_cell(n, c, 6) is Some);
    } else {
        assert(neighbor_cell(n, c, 1) is Some);
    }
}

/// A square grid of `size`×`size` cells, stored row by row: cell (x, y)
/// is element `x + y * size` of the buffer.
#[derive(Debug, Clone)]
pub struct Matrix<D> {
    size: usize,
    buffer: Vec<D>,
}

/// A grid whose every cell holds a tile.
pub type Image = Matrix<u64>;

/// A working grid in which a cell may still be undetermined.
pub type Data = Matrix<Option<u64>>;

impl<D> View for Matrix<D> {
    type V = Seq<D>;

    closed spec fn view(&self) -> Seq<D> {
        self.buffer@
    }
}

impl<D> Matrix<D> {
    /// Side length of the grid.
    pub closed spec fn dim(&self) -> nat {
        self.size as nat
    }

    /// The buffer holds exactly one element per cell.
    pub open spec fn wf(&self) -> bool {
        &&& self@.len() == self.dim() * self.dim()
        &&& self@.len() <= usize::MAX
    }

    /// The side of a well-formed grid fits in an `isize`.
    pub proof fn lemma_dim_fits(&self)
        requires
            self.wf(),
        ensures
            self.dim() <= isize::MAX,
    {
        let n = self.dim() as int;
        if n >= 2 {
            assert(2 * n <= n * n) by (nonlinear_arith)
                requires
                    n >= 2,
            ;
        }
    }

    /// A grid of side `size` over `buffer`; the buffer must hold exactly
    /// `size * size` elements.
    pub fn new(size: usize, buffer: Vec<D>) -> (r: Result<Matrix<D>, WfcError>)
        ensures
            r is Ok <==> buffer@.len() == size * size,
            r matches Ok(m) ==> m.wf() && m.dim() == size && m@ == buffer@,
            r matches Err(e) ==> e == WfcError::InvalidInput,
    {
        let len = buffer.len();
        match size.checked_mul(size) {
            Some(cells) => {
                if cells == len {
                    Ok(Matrix { size, buffer })
                } else {
                    Err(WfcError::InvalidInput)
                }
            },
            None => {
                assert(buffer@.len() != size * size);
                Err(WfcError::InvalidInput)
            },
        }
    }

    pub(crate) fn from_parts(size: usize, buffer: Vec<D>) -> (r: Matrix<D>)
        requires
            buffer@.len() == size * size,
            buffer@.len() <= usize::MAX,
        ensures
            r.wf(),
            r.dim() == size,
            r@ == buffer@,
    {
        Matrix { size, buffer }
    }

    /// Side length of the grid.
    pub fn size(&self) -> (r: usize)
        ensures
            r == self.dim(),
    {
        self.size
    }

    /// The cells, row by row.
    pub fn cells(&self) -> (r: &Vec<D>)
        ensures
            r@ == self@,
    {
        &self.buffer
    }

    /// The cell at (x, y); both must lie within the grid.
    pub fn get_unchecked(&self, x: usize, y: usize) -> (r: &D)
        requires
            self.wf(),
            x < self.dim(),
            y < self.dim(),
        ensures
            *r == self@[x + y * self.dim()],
    {
        proof {
            lemma_cell_coords(self.dim() as int, x as int, y as int);
        }
        let len = self.buffer.len();
        assert(y * self.size < len);
        &self.buffer[x + y * self.size]
    }

    /// The cell at (x, y) for writing; both must lie within the grid.
    pub fn get_unchecked_mut(&mut self, x: usize, y: usize) -> (r: &mut D)
        requires
            old(self).wf(),
            x < old(self).dim(),
            y < old(self).dim(),
        ensures
            *r == old(self)@[x + y * old(self).dim()],
            final(self).dim() == old(self).dim(),
            final(self)@ == old(self)@.update(x + y * old(self).dim(), *final(r)),
    {
        proof {
            lemma_cell_coords(self.dim() as int, x as int, y as int);
        }
        let len = self.buffer.len();
        assert(y * self.size < len);
        let i = x + y * self.size;
        &mut self.buffer[i]
    }

    /// The cell at (x, y), or `None` where (x, y) lies outside the grid.
    pub fn get_isize(&self, x: isize, y: isize) -> (r: Option<&D>)
        requires
            self.wf(),
        ensures
            r is Some <==> (0 <= x < self.dim() && 0 <= y < self.dim()),
            r matches Some(v) ==> *v == self@[x + y * self.dim()],
    {
        if x < 0 || y < 0 || x as usize >= self.size || y as usize >= self.size {
            None
        } else {
            Some(self.get_unchecked(x as usize, y as usize))
        }
    }

    /// The cell at (x, y) for writing, or `None` where (x, y) lies outside
    /// the grid.
    pub fn get_isize_mut(&mut self, x: isize, y: isize) -> (r: Option<&mut D>)
        requires
            old(self).wf(),
        ensures
            r is Some <==> (0 <= x < old(self).dim() && 0 <= y < old(self).dim()),
            final(self).dim() == old(self).dim(),
            r matches Some(v) ==> *v == old(self)@[x + y * old(self).dim()] && final(self)@
                == old(self)@.update(x + y * old(self).dim(), *final(v)),
            r is None ==> final(self)@ == old(self)@,
    {
        if x < 0 || y < 0 || x as usize >= self.size || y as usize >= self.size {
            None
        } else {
            Some(self.get_unchecked_mut(x as usize, y as usize))
        }
    }
}

} // verus!
