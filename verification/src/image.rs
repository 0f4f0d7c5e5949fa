//! One orientation's cost grid: the halo regions of its nets, overlaid in the
//! order in which the nets are given.

use vstd::prelude::*;
use crate::net::{box_in_range, nets_in_range, NetBox};

verus! {

/// What a cell of the grid records, as a mathematical value.
pub enum Mark {
    /// No net has written the cell.
    Untouched,
    /// The net at position `net` wrote the cell last, at `distance` from its
    /// bounding box.
    Halo { net: nat, distance: nat },
}

/// A cell of a cost grid. The cost of a `Halo` cell is `distance` times the
/// weight of the net at position `net`; an `Untouched` cell costs nothing.
#[derive(Clone, Copy, Debug, PartialEq, Eq, Structural)]
pub enum Cell {
    Untouched,
    Halo { net: usize, distance: u128 },
}

impl View for Cell {
    type V = Mark;

    open spec fn view(&self) -> Mark {
        match *self {
            Cell::Untouched => Mark::Untouched,
            Cell::Halo { net, distance } => Mark::Halo { net: net as nat, distance: distance as nat },
        }
    }
}

/// The marks of a grid, indexed by x, then y.
pub type Grid = Seq<Seq<Mark>>;

/// The distance that net `b` assigns to cell `(x, y)`, if its halo covers the
/// cell. The four regions are written in the order left, below, right, above,
/// so where they intersect the later one decides: above, then right, then
/// below, then left.
pub open spec fn halo_distance(b: NetBox, x: int, y: int) -> Option<nat> {
    if y >= b.end_y {
        Some((y - b.end_y + b.base_offset_y) as nat)
    } else if x >= b.end_x {
        Some((x - b.end_x + b.base_offset_x) as nat)
    } else if y < b.start_y {
        Some((b.start_y - y) as nat)
    } else if x < b.start_x {
        Some((b.start_x - x) as nat)
    } else {
        None
    }
}

/// The mark that the net at position `net` leaves on cell `(x, y)`, which
/// held `prior` before.
pub open spec fn overlay(b: NetBox, net: nat, x: int, y: int, prior: Mark) -> Mark {
    match halo_distance(b, x, y) {
        Some(distance) => Mark::Halo { net, distance },
        None => prior,
    }
}

/// The mark on cell `(x, y)` once the first `count` nets have been overlaid.
pub open spec fn mark_after(nets: Seq<NetBox>, count: int, x: int, y: int) -> Mark
    decreases count,
{
    if count <= 0 {
        Mark::Untouched
    } else {
        overlay(nets[count - 1], (count - 1) as nat, x, y, mark_after(nets, count - 1, x, y))
    }
}

/// The grid of side `grid` with all of `nets` overlaid, indexed by x, then y.
pub open spec fn image_of(nets: Seq<NetBox>, grid: nat) -> Grid {
    Seq::new(grid, |x: int| Seq::new(grid, |y: int| mark_after(nets, nets.len() as int, x, y)))
}

/// `cells` is a square grid of side `grid`.
pub open spec fn is_grid(cells: Seq<Vec<Cell>>, grid: int) -> bool {
    &&& cells.len() == grid
    &&& forall|x: int| 0 <= x < grid ==> (#[trigger] cells[x]).len() == grid
}

/// The mark on cell `(x, y)` of `cells`.
pub open spec fn mark_at(cells: Seq<Vec<Cell>>, x: int, y: int) -> Mark {
    cells[x]@[y]@
}

/// A square cost grid, one per orientation.
#[derive(Debug, PartialEq, Eq)]
pub struct WireImage {
    cells: Vec<Vec<Cell>>,
}

impl View for WireImage {
    type V = Grid;

    closed spec fn view(&self) -> Grid {
        Seq::new(
            self.cells@.len(),
            |x: int| Seq::new(self.cells@[x]@.len(), |y: int| mark_at(self.cells@, x, y)),
        )
    }
}

/// `image` has `side` rows of `side` marks each.
pub open spec fn is_square(image: Grid, side: int) -> bool {
    &&& image.len() == side
    &&& forall|x: int| 0 <= x < side ==> (#[trigger] image[x]).len() == side
}

impl WireImage {
    #[verifier::type_invariant]
    spec fn square(self) -> bool {
        is_grid(self.cells@, self.cells@.len() as int)
    }

    /// The side length of the grid.
    pub fn side(&self) -> (n: usize)
        ensures
            is_square(self@, n as int),
    {
        proof {
            use_type_invariant(self);
        }
        self.cells.len()
    }

    /// The cell at `(x, y)`, or `None` where that lies outside the grid.
    pub fn cell(&self, x: usize, y: usize) -> (c: Option<Cell>)
        ensures
            is_square(self@, self@.len() as int),
            c matches Some(found) ==> x < self@.len() && y < self@.len() && found@
                == self@[x as int][y as int],
            c is None <==> x >= self@.len() || y >= self@.len(),
    {
        proof {
            use_type_invariant(self);
        }
        if x < self.cells.len() && y < self.cells.len() {
            Some(self.cells[x][y])
        } else {
            None
        }
    }
}

/// Makes a grid of side `grid` in which no cell has been written.
fn blank_cells(grid: usize) -> (cells: Vec<Vec<Cell>>)
    ensures
        is_grid(cells@, grid as int),
        forall|x: int, y: int|
            0 <= x < grid && 0 <= y < grid ==> #[trigger] mark_at(cells@, x, y) == Mark::Untouched,
{
    let mut cells: Vec<Vec<Cell>> = Vec::new();
    let mut x: usize = 0;
    while x < grid
        invariant
            x <= grid,
            cells@.len() == x,
            forall|i: int| 0 <= i < x ==> (#[trigger] cells@[i]).len() == grid,
            forall|i: int, j: int|
                0 <= i < x && 0 <= j < grid ==> #[trigger] mark_at(cells@, i, j) == Mark::Untouched,
        decreases grid - x,
    {
        let mut column: Vec<Cell> = Vec::new();
        let mut y: usize = 0;
        while y < grid
            invariant
                y <= grid,
                column@.len() == y,
                forall|j: int| 0 <= j < y ==> (#[trigger] column@[j]) == Cell::Untouched,
            decreases grid - y,
        {
            column.push(Cell::Untouched);
            y += 1;
        }
        let ghost before = cells@;
        cells.push(column);
        assert forall|i: int, j: int| 0 <= i <= x && 0 <= j < grid implies #[trigger] mark_at(
            cells@,
            i,
            j,
        ) == Mark::Untouched by {
            if i < x {
                assert(cells@[i] == before[i]);
                assert(mark_at(before, i, j) == Mark::Untouched);
            }
        }
        x += 1;
    }
    cells
}

/// Writes `value` into every cell of column `x`.
fn fill_column(cells: &mut Vec<Vec<Cell>>, x: usize, value: Cell, grid: usize)
    requires
        is_grid(old(cells)@, grid as int),
        x < grid,
    ensures
        is_grid(final(cells)@, grid as int),
        forall|i: int, j: int|
            0 <= i < grid && 0 <= j < grid ==> #[trigger] mark_at(final(cells)@, i, j) == (if i
                == x {
                value@
            } else {
                mark_at(old(cells)@, i, j)
            }),
{
    let mut y: usize = 0;
    while y < grid
        invariant
            y <= grid,
            x < grid,
            is_grid(cells@, grid as int),
            forall|i: int, j: int|
                0 <= i < grid && 0 <= j < grid ==> #[trigger] mark_at(cells@, i, j) == (if i == x
                    && j < y {
                    value@
                } else {
                    mark_at(old(cells)@, i, j)
                }),
        decreases grid - y,
    {
        let ghost before = cells@;
        cells[x][y] = value;
        assert forall|i: int, j: int| 0 <= i < grid && 0 <= j < grid implies #[trigger] mark_at(
            cells@,
            i,
            j,
        ) == (if i == x && j == y {
            value@
        } else {
            mark_at(before, i, j)
        }) by {
            assert(before[i].len() == grid);
        }
        y += 1;
    }
}

/// Writes `value` into every cell of row `y`.
fn fill_row(cells: &mut Vec<Vec<Cell>>, y: usize, value: Cell, grid: usize)
    requires
        is_grid(old(cells)@, grid as int),
        y < grid,
    ensures
        is_grid(final(cells)@, grid as int),
        forall|i: int, j: int|
            0 <= i < grid && 0 <= j < grid ==> #[trigger] mark_at(final(cells)@, i, j) == (if j
                == y {
                value@
            } else {
                mark_at(old(cells)@, i, j)
            }),
{
    let mut x: usize = 0;
    while x < grid
        invariant
            x <= grid,
            y < grid,
            is_grid(cells@, grid as int),
            forall|i: int, j: int|
                0 <= i < grid && 0 <= j < grid ==> #[trigger] mark_at(cells@, i, j) == (if j == y
                    && i < x {
                    value@
                } else {
                    mark_at(old(cells)@, i, j)
                }),
        decreases grid - x,
    {
        let ghost before = cells@;
        cells[x][y] = value;
        assert forall|i: int, j: int| 0 <= i < grid && 0 <= j < grid implies #[trigger] mark_at(
            cells@,
            i,
            j,
        ) == (if i == x && j == y {
            value@
        } else {
            mark_at(before, i, j)
        }) by {
            assert(before[i].len() == grid);
        }
        x += 1;
    }
}

/// The mark on `(x, y)` after the region left of the box has been written.
pub open spec fn after_left(b: NetBox, net: nat, x: int, prior: Mark) -> Mark {
    if x < b.start_x {
        Mark::Halo { net, distance: (b.start_x - x) as nat }
    } else {
        prior
    }
}

/// The mark on `(x, y)` after the region below the box has been written.
pub open spec fn after_below(b: NetBox, net: nat, y: int, prior: Mark) -> Mark {
    if y < b.start_y {
        Mark::Halo { net, distance: (b.start_y - y) as nat }
    } else {
        prior
    }
}

/// The mark on `(x, y)` after the region right of the box has been written.
pub open spec fn after_right(b: NetBox, net: nat, x: int, prior: Mark) -> Mark {
    if x >= b.end_x {
        Mark::Halo { net, distance: (x - b.end_x + b.base_offset_x) as nat }
    } else {
        prior
    }
}

/// The mark on `(x, y)` after the region above the box has been written.
pub open spec fn after_above(b: NetBox, net: nat, y: int, prior: Mark) -> Mark {
    if y >= b.end_y {
        Mark::Halo { net, distance: (y - b.end_y + b.base_offset_y) as nat }
    } else {
        prior
    }
}

/// Writing the four regions in turn, each over the last, leaves what
/// `overlay` states.
pub proof fn lemma_four_regions_overlay(b: NetBox, net: nat, x: int, y: int, prior: Mark)
    ensures
        after_above(b, net, y, after_right(b, net, x, after_below(b, net, y, after_left(b, net, x, prior))))
            == overlay(b, net, x, y, prior),
{
}

/// Overlays the halo of `b`, the net at position `net`: the regions left of
/// the box, below it, right of it and above it, in that order, each written
/// over what the cells held.
fn overlay_net(cells: &mut Vec<Vec<Cell>>, b: &NetBox, net: usize, grid: usize)
    requires
        is_grid(old(cells)@, grid as int),
        box_in_range(*b, grid as int),
    ensures
        is_grid(final(cells)@, grid as int),
        forall|x: int, y: int|
            0 <= x < grid && 0 <= y < grid ==> #[trigger] mark_at(final(cells)@, x, y) == overlay(
                *b,
                net as nat,
                x,
                y,
                mark_at(old(cells)@, x, y),
            ),
{
    let ghost prior = cells@;
    let mut i: usize = 0;
    while i < b.start_x
        invariant
            i <= b.start_x <= grid,
            is_grid(cells@, grid as int),
            forall|x: int, y: int|
                0 <= x < grid && 0 <= y < grid ==> #[trigger] mark_at(cells@, x, y) == (if x < i {
                    after_left(*b, net as nat, x, mark_at(prior, x, y))
                } else {
                    mark_at(prior, x, y)
                }),
        decreases b.start_x - i,
    {
        let distance: u128 = (b.start_x - i) as u128;
        fill_column(cells, i, Cell::Halo { net, distance }, grid);
        i += 1;
    }
    let ghost left = cells@;
    let mut j: usize = 0;
    while j < b.start_y
        invariant
            j <= b.start_y <= grid,
            is_grid(cells@, grid as int),
            forall|x: int, y: int|
                0 <= x < grid && 0 <= y < grid ==> #[trigger] mark_at(cells@, x, y) == (if y < j {
                    after_below(*b, net as nat, y, mark_at(left, x, y))
                } else {
                    mark_at(left, x, y)
                }),
        decreases b.start_y - j,
    {
        let distance: u128 = (b.start_y - j) as u128;
        fill_row(cells, j, Cell::Halo { net, distance }, grid);
        j += 1;
    }
    let ghost below = cells@;
    let mut i: usize = b.end_x;
    while i < grid
        invariant
            b.end_x <= i <= grid,
            is_grid(cells@, grid as int),
            forall|x: int, y: int|
                0 <= x < grid && 0 <= y < grid ==> #[trigger] mark_at(cells@, x, y) == (if x < i {
                    after_right(*b, net as nat, x, mark_at(below, x, y))
                } else {
                    mark_at(below, x, y)
                }),
        decreases grid - i,
    {
        let distance: u128 = (i - b.end_x) as u128 + b.base_offset_x as u128;
        fill_column(cells, i, Cell::Halo { net, distance }, grid);
        i += 1;
    }
    let ghost right = cells@;
    let mut j: usize = b.end_y;
    while j < grid
        invariant
            b.end_y <= j <= grid,
            is_grid(cells@, grid as int),
            forall|x: int, y: int|
                0 <= x < grid && 0 <= y < grid ==> #[trigger] mark_at(cells@, x, y) == (if y < j {
                    after_above(*b, net as nat, y, mark_at(right, x, y))
                } else {
                    mark_at(right, x, y)
                }),
        decreases grid - j,
    {
        let distance: u128 = (j - b.end_y) as u128 + b.base_offset_y as u128;
        fill_row(cells, j, Cell::Halo { net, distance }, grid);
        j += 1;
    }
    proof {
        assert forall|x: int, y: int| 0 <= x < grid && 0 <= y < grid implies #[trigger] mark_at(
            cells@,
            x,
            y,
        ) == overlay(*b, net as nat, x, y, mark_at(prior, x, y)) by {
            assert(mark_at(left, x, y) == after_left(*b, net as nat, x, mark_at(prior, x, y)));
            assert(mark_at(below, x, y) == after_below(*b, net as nat, y, mark_at(left, x, y)));
            assert(mark_at(right, x, y) == after_right(*b, net as nat, x, mark_at(below, x, y)));
            lemma_four_regions_overlay(*b, net as nat, x, y, mark_at(prior, x, y));
        }
    }
}

/// Computes one orientation's cost grid: a grid of side `grid` on which the
/// halo of each net of `nets` is overlaid, in the order given. Where the halos
/// of two nets meet, the later net's mark stays.
pub fn compute_wire_image(nets: &Vec<NetBox>, grid: usize) -> (image: WireImage)
    requires
        nets_in_range(nets@, grid as int),
    ensures
        image@ == image_of(nets@, grid as nat),
{
    let mut cells = blank_cells(grid);
    let mut k: usize = 0;
    while k < nets.len()
        invariant
            k <= nets.len(),
            nets_in_range(nets@, grid as int),
            is_grid(cells@, grid as int),
            forall|x: int, y: int|
                0 <= x < grid && 0 <= y < grid ==> #[trigger] mark_at(cells@, x, y) == mark_after(
                    nets@,
                    k as int,
                    x,
                    y,
                ),
        decreases nets.len() - k,
    {
        overlay_net(&mut cells, &nets[k], k, grid);
        k += 1;
    }
    let image = WireImage { cells };
    assert(image@ =~~= image_of(nets@, grid as nat));
    image
}

} // verus!
