//! The scene that a simulation starts from: the channel mapping, patches of noise and
//! obstacles.
use crate::bytes::ByteOrder;
use crate::convolve::{lemma_cell, lemma_place};
use crate::gpu::{ParamBlock, Word, F32_ONE, F32_ZERO};
use crate::kernels::F64_ZERO;
use crate::nd::{grid_elems, grid_elems_vec, grid_set, grid_shape, grid_zeros, Grid};
use vstd::prelude::*;

verus! {

/// The number of obstacle disks of a scene.
pub const NUM_DISKS: usize = 8;

/// The source channel of each kernel: three kernels for each of three channels.
pub fn source_channels() -> (c0: Vec<u32>)
    ensures
        c0@ == seq![0u32, 0, 0, 1, 1, 1, 2, 2, 2],
{
    vec![0, 0, 0, 1, 1, 1, 2, 2, 2]
}

/// The kernels that contribute to each channel: two of its own and one of another.
pub fn target_kernels() -> (c1: Vec<Vec<u32>>)
    ensures
        c1.len() == 3,
        c1@[0]@ == seq![0u32, 1, 6],
        c1@[1]@ == seq![2u32, 3, 4],
        c1@[2]@ == seq![5u32, 7, 8],
{
    vec![vec![0, 1, 6], vec![2, 3, 4], vec![5, 7, 8]]
}

/// The centres of the patches of noise of the three channels, on a grid of `shape`
/// times `shape` cells.
pub fn patch_centres(shape: usize) -> (centres: Vec<(usize, usize)>)
    requires
        2 * shape <= usize::MAX,
    ensures
        centres@ == seq![
            ((shape / 2) as usize, (shape / 2) as usize),
            ((shape / 3) as usize, (shape / 2) as usize),
            ((2 * shape / 3) as usize, (shape / 2) as usize),
        ],
{
    vec![(shape / 2, shape / 2), (shape / 3, shape / 2), (2 * shape / 3, shape / 2)]
}

/// Where a patch of `size` cells around `centre` starts, if it does not start before
/// the grid.
pub open spec fn patch_start(centre: int, size: int) -> int {
    if centre < size / 2 {
        0
    } else {
        centre - size / 2
    }
}

/// Cell `(x, y)` lies in the patch.
pub open spec fn in_patch(centre: (usize, usize), size: int, x: int, y: int) -> bool {
    let x0 = patch_start(centre.0 as int, size);
    let y0 = patch_start(centre.1 as int, size);
    x0 <= x < x0 + size && y0 <= y < y0 + size
}

/// The place of cell `(x, y)` among the cells of a patch, row by row.
pub open spec fn draw_at(centre: (usize, usize), size: int, x: int, y: int) -> int {
    (y - patch_start(centre.1 as int, size)) * size + (x - patch_start(centre.0 as int, size))
}

/// What cell `(x, y)` of a seeded channel holds: its own draw in the patch, zero
/// elsewhere.
pub open spec fn seeded_cell(
    centre: (usize, usize),
    size: int,
    draws: Seq<u64>,
    x: int,
    y: int,
) -> u64 {
    if in_patch(centre, size, x, y) {
        draws[draw_at(centre, size, x, y)]
    } else {
        F64_ZERO
    }
}

/// A row and a column of a patch give a place among its cells, and a different one for
/// every other row and column.
proof fn lemma_draw_place(size: int, dx: int, dy: int)
    requires
        0 <= dx < size,
        0 <= dy < size,
    ensures
        0 <= dy * size + dx < size * size,
        (dy * size + dx) / size == dy,
        (dy * size + dx) % size == dx,
{
    lemma_cell(size as nat, size as nat, dx, dy);
}

/// Every cell of a patch has a draw of its own: different cells have different places
/// among the draws.
pub proof fn cells_have_their_own_draws(
    centre: (usize, usize),
    size: int,
    a: (int, int),
    b: (int, int),
)
    requires
        in_patch(centre, size, a.0, a.1),
        in_patch(centre, size, b.0, b.1),
        a != b,
    ensures
        0 <= draw_at(centre, size, a.0, a.1) < size * size,
        draw_at(centre, size, a.0, a.1) != draw_at(centre, size, b.0, b.1),
{
    let x0 = patch_start(centre.0 as int, size);
    let y0 = patch_start(centre.1 as int, size);
    lemma_draw_place(size, a.0 - x0, a.1 - y0);
    lemma_draw_place(size, b.0 - x0, b.1 - y0);
}

/// What cell `(x, y)` of a channel seeded with noise may hold: the noise of its own place
/// in the patch, zero elsewhere.
pub open spec fn seeded<N: Fn(usize, usize) -> u64>(
    noise: N,
    centre: (usize, usize),
    size: int,
    x: int,
    y: int,
    cell: u64,
) -> bool {
    if in_patch(centre, size, x, y) {
        noise.ensures((x as usize, y as usize), cell)
    } else {
        cell == F64_ZERO
    }
}

/// Whether `noise` can be asked for every cell of the patch that lies on the grid.
pub open spec fn can_seed<N: Fn(usize, usize) -> u64>(
    noise: N,
    shape: int,
    centre: (usize, usize),
    size: int,
) -> bool {
    forall|x: usize, y: usize|
        x < shape && y < shape && in_patch(centre, size, x as int, y as int)
            ==> #[trigger] noise.requires((x, y))
}

/// A channel of `shape` times `shape` cells with a patch of noise of `size` times
/// `size` cells around `centre`, as far as it lies on the grid, and zeros elsewhere.
/// `noise` is asked for every cell of the patch by the cell's place, row by row. The
/// numbers are bit patterns of double-precision numbers, row by row.
pub fn seed_channel<N: Fn(usize, usize) -> u64>(
    shape: usize,
    centre: (usize, usize),
    size: usize,
    noise: &N,
) -> (cells: Vec<u64>)
    requires
        shape > 0,
        shape * shape * 8 <= isize::MAX,
        centre.0 + size <= usize::MAX,
        centre.1 + size <= usize::MAX,
        can_seed(*noise, shape as int, centre, size as int),
    ensures
        cells.len() == shape * shape,
        forall|p: int|
            0 <= p < shape * shape ==> seeded(
                *noise,
                centre,
                size as int,
                p % (shape as int),
                p / (shape as int),
                #[trigger] cells@[p],
            ),
{
    let (cx, cy) = centre;
    let half: usize = size / 2;
    let x0: usize = cx.saturating_sub(half);
    let y0: usize = cy.saturating_sub(half);
    let ghost n = shape as int;
    let mut grid: Grid = grid_zeros(shape, shape);
    let mut dy: usize = 0;
    while dy < size
        invariant
            dy <= size,
            shape > 0,
            n == shape,
            x0 + size <= usize::MAX,
            y0 + size <= usize::MAX,
            x0 == patch_start(centre.0 as int, size as int),
            y0 == patch_start(centre.1 as int, size as int),
            can_seed(*noise, shape as int, centre, size as int),
            grid_shape(grid) == (shape, shape),
            grid_elems(grid).len() == n * n,
            forall|p: int|
                0 <= p < n * n ==> if p / n < y0 + dy {
                    seeded(
                        *noise,
                        centre,
                        size as int,
                        p % n,
                        p / n,
                        #[trigger] grid_elems(grid)[p],
                    )
                } else {
                    grid_elems(grid)[p] == F64_ZERO
                },
        decreases size - dy,
    {
        let mut dx: usize = 0;
        while dx < size
            invariant
                dx <= size,
                dy < size,
                shape > 0,
                n == shape,
                x0 + size <= usize::MAX,
                y0 + size <= usize::MAX,
                x0 == patch_start(centre.0 as int, size as int),
                y0 == patch_start(centre.1 as int, size as int),
                can_seed(*noise, shape as int, centre, size as int),
                grid_shape(grid) == (shape, shape),
                grid_elems(grid).len() == n * n,
                forall|p: int|
                    0 <= p < n * n ==> if p / n < y0 + dy || (p / n == y0 + dy && p % n < x0 + dx) {
                        seeded(
                            *noise,
                            centre,
                            size as int,
                            p % n,
                            p / n,
                            #[trigger] grid_elems(grid)[p],
                        )
                    } else {
                        grid_elems(grid)[p] == F64_ZERO
                    },
            decreases size - dx,
        {
            let px: usize = x0 + dx;
            let py: usize = y0 + dy;
            let ghost before = grid_elems(grid);
            if px < shape && py < shape {
                let value: u64 = noise(px, py);
                proof {
                    lemma_cell(shape as nat, shape as nat, px as int, py as int);
                }
                grid_set(&mut grid, py, px, value);
            }
            proof {
                assert forall|p: int| 0 <= p < n * n implies if p / n < y0 + dy || (p / n == y0 + dy
                    && p % n < x0 + dx + 1) {
                    seeded(
                        *noise,
                        centre,
                        size as int,
                        p % n,
                        p / n,
                        #[trigger] grid_elems(grid)[p],
                    )
                } else {
                    grid_elems(grid)[p] == F64_ZERO
                } by {
                    lemma_place(shape as nat, shape as nat, p);
                    if p % n != px || p / n != py {
                        assert(grid_elems(grid)[p] == before[p]);
                    }
                }
            }
            dx = dx + 1;
        }
        dy = dy + 1;
    }
    grid_elems_vec(&grid)
}

/// A channel of `shape` times `shape` cells with a patch of `size` times `size` cells
/// around `centre`, as far as it lies on the grid, and zeros elsewhere. The cells of the
/// patch hold the draws, row by row.
pub fn seed_channel_with(
    shape: usize,
    centre: (usize, usize),
    size: usize,
    draws: &Vec<u64>,
) -> (cells: Vec<u64>)
    requires
        shape > 0,
        shape * shape * 8 <= isize::MAX,
        centre.0 + size <= usize::MAX,
        centre.1 + size <= usize::MAX,
        size * size <= draws.len(),
    ensures
        cells.len() == shape * shape,
        forall|p: int|
            0 <= p < shape * shape ==> #[trigger] cells@[p] == seeded_cell(
                centre,
                size as int,
                draws@,
                p % (shape as int),
                p / (shape as int),
            ),
{
    let (cx, cy) = centre;
    let half: usize = size / 2;
    let x0: usize = cx.saturating_sub(half);
    let y0: usize = cy.saturating_sub(half);
    let len: usize = draws.len();
    let draw = |x: usize, y: usize| -> (value: u64)
        requires
            in_patch(centre, size as int, x as int, y as int),
        ensures
            value == draws@[draw_at(centre, size as int, x as int, y as int)],
        {
            proof {
                lemma_draw_place(size as int, x - x0, y - y0);
                assert(0 <= (y - y0) * size) by (nonlinear_arith)
                    requires
                        y - y0 >= 0,
                        size >= 0,
                ;
            }
            draws[(y - y0) * size + (x - x0)]
        };
    let cells: Vec<u64> = seed_channel(shape, centre, size, &draw);
    proof {
        let n = shape as int;
        assert forall|p: int| 0 <= p < n * n implies #[trigger] cells@[p] == seeded_cell(
            centre,
            size as int,
            draws@,
            p % n,
            p / n,
        ) by {
            lemma_place(shape as nat, shape as nat, p);
            assert(seeded(draw, centre, size as int, p % n, p / n, cells@[p]));
        }
    }
    cells
}

/// An obstacle: the cells at most `radius` away from `(cx, cy)`.
#[derive(Clone, Copy, Debug, PartialEq, Eq, Structural)]
pub struct Disk {
    pub cx: usize,
    pub cy: usize,
    pub radius: i32,
}

impl Disk {
    /// Cell `(x, y)` lies in the disk.
    pub open spec fn covers(self, x: int, y: int) -> bool {
        (x - self.cx) * (x - self.cx) + (y - self.cy) * (y - self.cy) <= self.radius * self.radius
    }

    /// The disk is small enough for 32-bit arithmetic.
    pub open spec fn wf(self) -> bool {
        &&& 0 <= self.radius <= 32767
        &&& self.cx + self.radius <= i32::MAX
        &&& self.cy + self.radius <= i32::MAX
    }
}

/// Element `p` lies on a wall of two cells from column `x` on, whose rows are solid
/// up to `solid` in every `period`.
pub open spec fn on_wall(shape: int, x: int, period: int, solid: int, p: int) -> bool {
    exists|y: int, dx: int|
        #![trigger wall_cell(shape, x, y, dx)]
        shape / 8 <= y < 7 * shape / 8 && y % period <= solid && 0 <= dx < 2 && wall_cell(
            shape,
            x,
            y,
            dx,
        ) == p
}

/// The element at row `y`, `dx` cells after column `x`.
pub open spec fn wall_cell(shape: int, x: int, y: int, dx: int) -> int {
    y * shape + x + dx
}

/// Element `p` is an obstacle.
pub open spec fn is_obstacle(shape: int, disks: Seq<Disk>, p: int) -> bool {
    ||| on_wall(shape, shape / 3, 8, 5, p)
    ||| on_wall(shape, 2 * shape / 3, 10, 7, p)
    ||| exists|d: int|
        0 <= d < disks.len() && (#[trigger] disks[d]).covers(p % shape, p / shape)
}

/// The cells of a grid of `shape` times `shape` cells, one where there is an obstacle
/// and zero elsewhere.
pub open spec fn obstacle_cells(shape: int, disks: Seq<Disk>) -> Seq<u32> {
    Seq::new(
        (shape * shape) as nat,
        |p: int|
            if is_obstacle(shape, disks, p) {
                F32_ONE
            } else {
                F32_ZERO
            },
    )
}

/// Sets the cells of a wall.
fn add_wall(cells: &mut Vec<u32>, shape: usize, x: usize, period: usize, solid: usize)
    requires
        old(cells).len() == shape * shape,
        7 * shape <= usize::MAX,
        shape * shape + shape + 2 <= usize::MAX,
        x <= shape,
        period > 0,
    ensures
        final(cells).len() == shape * shape,
        forall|p: int|
            0 <= p < shape * shape ==> #[trigger] final(cells)@[p] == if on_wall(
                shape as int,
                x as int,
                period as int,
                solid as int,
                p,
            ) {
                F32_ONE
            } else {
                old(cells)@[p]
            },
{
    let ghost start = cells@;
    let end: usize = 7 * shape / 8;
    let mut y: usize = shape / 8;
    let ghost n = shape as int;
    while y < end
        invariant
            end == 7 * shape / 8,
            shape / 8 <= y,
            y <= end || y == shape / 8,
            n == shape,
            cells.len() == n * n == start.len(),
            n * n + n + 2 <= usize::MAX,
            x <= shape,
            period > 0,
            forall|p: int|
                0 <= p < n * n ==> #[trigger] cells@[p] == if wall_before(
                    n,
                    x as int,
                    period as int,
                    solid as int,
                    y as int,
                    p,
                ) {
                    F32_ONE
                } else {
                    start[p]
                },
        decreases end - y,
    {
        let ghost before = cells@;
        if y % period <= solid {
            let mut dx: usize = 0;
            while dx < 2
                invariant
                    dx <= 2,
                    y < end == 7 * shape / 8,
                    n == shape,
                    cells.len() == n * n == start.len() == before.len(),
                    n * n + n + 2 <= usize::MAX,
                    x <= shape,
                    forall|p: int|
                        0 <= p < n * n ==> #[trigger] cells@[p] == if exists|e: int|
                            0 <= e < dx && #[trigger] wall_cell(n, x as int, y as int, e) == p {
                            F32_ONE
                        } else {
                            before[p]
                        },
                decreases 2 - dx,
            {
                proof {
                    assert(0 <= y * n <= n * n) by (nonlinear_arith)
                        requires
                            0 <= y <= n,
                    ;
                }
                let idx: usize = y * shape + x + dx;
                let ghost held = cells@;
                assert(wall_cell(n, x as int, y as int, dx as int) == idx);
                if idx < cells.len() {
                    cells.set(idx, F32_ONE);
                }
                proof {
                    assert forall|p: int| 0 <= p < n * n implies #[trigger] cells@[p]
                        == if exists|e: int|
                        0 <= e < dx + 1 && #[trigger] wall_cell(n, x as int, y as int, e) == p {
                        F32_ONE
                    } else {
                        before[p]
                    } by {
                        if p != idx {
                            assert(cells@[p] == held[p]);
                        }
                    }
                }
                dx = dx + 1;
            }
        }
        proof {
            assert forall|p: int| 0 <= p < n * n implies #[trigger] cells@[p] == if wall_before(
                n,
                x as int,
                period as int,
                solid as int,
                y + 1,
                p,
            ) {
                F32_ONE
            } else {
                start[p]
            } by {
                assert(before[p] == if wall_before(
                    n,
                    x as int,
                    period as int,
                    solid as int,
                    y as int,
                    p,
                ) {
                    F32_ONE
                } else {
                    start[p]
                });
                if y % period <= solid {
                    if exists|e: int|
                        0 <= e < 2 && #[trigger] wall_cell(n, x as int, y as int, e) == p {
                        assert(wall_before(
                            n,
                            x as int,
                            period as int,
                            solid as int,
                            y + 1,
                            p,
                        ));
                    }
                }
            }
        }
        y = y + 1;
    }
    proof {
        assert forall|p: int| 0 <= p < shape * shape implies #[trigger] cells@[p] == if on_wall(
            shape as int,
            x as int,
            period as int,
            solid as int,
            p,
        ) {
            F32_ONE
        } else {
            start[p]
        } by {
            assert(wall_before(n, x as int, period as int, solid as int, y as int, p) == on_wall(
                n,
                x as int,
                period as int,
                solid as int,
                p,
            ));
        }
    }
}

/// Element `p` lies on the part of a wall before row `end`.
spec fn wall_before(shape: int, x: int, period: int, solid: int, end: int, p: int) -> bool {
    exists|y: int, dx: int|
        #![trigger wall_cell(shape, x, y, dx)]
        shape / 8 <= y < end && y < 7 * shape / 8 && y % period <= solid && 0 <= dx < 2
            && wall_cell(shape, x, y, dx) == p
}

/// A disk lies within its radius.
proof fn lemma_disk_bounds(x: int, y: int, r: int)
    requires
        0 <= r,
        x * x + y * y <= r * r,
    ensures
        -r <= x <= r,
        -r <= y <= r,
{
    assert(x * x >= 0) by (nonlinear_arith);
    assert(y * y >= 0) by (nonlinear_arith);
    assert(-r <= x <= r) by (nonlinear_arith)
        requires
            0 <= r,
            x * x <= r * r,
    ;
    assert(-r <= y <= r) by (nonlinear_arith)
        requires
            0 <= r,
            y * y <= r * r,
    ;
}

/// Cell `(x, y)` of a disk was reached before row `dy` and column `dx` of it.
spec fn disk_done(disk: Disk, dx: int, dy: int, x: int, y: int) -> bool {
    disk.covers(x, y) && (y - disk.cy < dy || (y - disk.cy == dy && x - disk.cx < dx))
}

/// Sets the cells of a disk.
fn add_disk(cells: &mut Vec<u32>, shape: usize, disk: Disk)
    requires
        0 < shape <= i32::MAX,
        old(cells).len() == shape * shape,
        disk.wf(),
    ensures
        final(cells).len() == shape * shape,
        forall|p: int|
            0 <= p < shape * shape ==> #[trigger] final(cells)@[p] == if disk.covers(
                p % (shape as int),
                p / (shape as int),
            ) {
                F32_ONE
            } else {
                old(cells)@[p]
            },
{
    let ghost start = cells@;
    let ghost n = shape as int;
    let radius: i32 = disk.radius;
    let mut dy: i32 = -radius;
    proof {
        assert forall|p: int| 0 <= p < n * n implies #[trigger] cells@[p] == if disk_done(
            disk,
            -radius as int,
            -radius as int,
            p % n,
            p / n,
        ) {
            F32_ONE
        } else {
            start[p]
        } by {
            if disk.covers(p % n, p / n) {
                lemma_disk_bounds(p % n - disk.cx, p / n - disk.cy, radius as int);
            }
        }
    }
    while dy <= radius
        invariant
            disk.wf(),
            radius == disk.radius,
            -radius <= dy <= radius + 1,
            0 < shape <= i32::MAX,
            n == shape,
            cells.len() == n * n == start.len(),
            forall|p: int|
                0 <= p < n * n ==> #[trigger] cells@[p] == if disk_done(
                    disk,
                    -radius as int,
                    dy as int,
                    p % n,
                    p / n,
                ) {
                    F32_ONE
                } else {
                    start[p]
                },
        decreases radius + 1 - dy,
    {
        let mut dx: i32 = -radius;
        while dx <= radius
            invariant
                disk.wf(),
                radius == disk.radius,
                -radius <= dy <= radius,
                -radius <= dx <= radius + 1,
                0 < shape <= i32::MAX,
                n == shape,
                cells.len() == n * n == start.len(),
                forall|p: int|
                    0 <= p < n * n ==> #[trigger] cells@[p] == if disk_done(
                        disk,
                        dx as int,
                        dy as int,
                        p % n,
                        p / n,
                    ) {
                        F32_ONE
                    } else {
                        start[p]
                    },
            decreases radius + 1 - dx,
        {
            proof {
                lemma_squares_fit(dx as int, dy as int, radius as int);
            }
            let ghost before = cells@;
            let ghost (x, y) = (disk.cx + dx, disk.cy + dy);
            if dx * dx + dy * dy <= radius * radius {
                let px: i32 = disk.cx as i32 + dx;
                let py: i32 = disk.cy as i32 + dy;
                if px >= 0 && py >= 0 && (px as usize) < shape && (py as usize) < shape {
                    proof {
                        lemma_cell(shape as nat, shape as nat, px as int, py as int);
                        assert(0 <= py * n) by (nonlinear_arith)
                            requires
                                py >= 0,
                                n >= 0,
                        ;
                    }
                    cells.set(py as usize * shape + px as usize, F32_ONE);
                }
            }
            proof {
                assert forall|p: int| 0 <= p < n * n implies #[trigger] cells@[p] == if disk_done(
                    disk,
                    dx + 1,
                    dy as int,
                    p % n,
                    p / n,
                ) {
                    F32_ONE
                } else {
                    start[p]
                } by {
                    lemma_place(shape as nat, shape as nat, p);
                    if p % n == x && p / n == y {
                        assert(x - disk.cx == dx && y - disk.cy == dy);
                    } else {
                        assert(cells@[p] == before[p]);
                    }
                }
            }
            dx = dx + 1;
        }
        proof {
            assert forall|p: int| 0 <= p < n * n implies #[trigger] cells@[p] == if disk_done(
                disk,
                -radius as int,
                dy + 1,
                p % n,
                p / n,
            ) {
                F32_ONE
            } else {
                start[p]
            } by {
                if disk.covers(p % n, p / n) {
                    lemma_disk_bounds(p % n - disk.cx, p / n - disk.cy, radius as int);
                }
            }
        }
        dy = dy + 1;
    }
    proof {
        assert forall|p: int| 0 <= p < n * n implies #[trigger] cells@[p] == if disk.covers(
            p % n,
            p / n,
        ) {
            F32_ONE
        } else {
            start[p]
        } by {
            if disk.covers(p % n, p / n) {
                lemma_disk_bounds(p % n - disk.cx, p / n - disk.cy, radius as int);
            }
        }
    }
}

/// The squares of a disk fit in 32 bits.
proof fn lemma_squares_fit(x: int, y: int, r: int)
    requires
        -r <= x <= r,
        -r <= y <= r,
        0 <= r <= 32767,
    ensures
        0 <= x * x <= 32767 * 32767,
        0 <= y * y <= 32767 * 32767,
        0 <= r * r <= 32767 * 32767,
{
    assert(0 <= x * x <= 32767 * 32767) by (nonlinear_arith)
        requires
            -32767 <= x <= 32767,
    ;
    assert(0 <= y * y <= 32767 * 32767) by (nonlinear_arith)
        requires
            -32767 <= y <= 32767,
    ;
    assert(0 <= r * r <= 32767 * 32767) by (nonlinear_arith)
        requires
            0 <= r <= 32767,
    ;
}

/// The obstacles of a scene: two vertical walls with gaps, and the given disks.
pub fn make_obstacles(shape: usize, disks: &Vec<Disk>) -> (cells: Vec<u32>)
    requires
        0 < shape <= i32::MAX,
        7 * shape <= usize::MAX,
        shape * shape + shape + 2 <= usize::MAX,
        forall|d: int| 0 <= d < disks.len() ==> (#[trigger] disks@[d]).wf(),
    ensures
        cells@ == obstacle_cells(shape as int, disks@),
{
    let ghost n = shape as int;
    let total: usize = shape * shape;
    let mut cells: Vec<u32> = Vec::new();
    while cells.len() < total
        invariant
            cells.len() <= total,
            forall|p: int| 0 <= p < cells.len() ==> #[trigger] cells@[p] == F32_ZERO,
        decreases total - cells.len(),
    {
        cells.push(F32_ZERO);
    }
    add_wall(&mut cells, shape, shape / 3, 8, 5);
    add_wall(&mut cells, shape, 2 * shape / 3, 10, 7);
    let mut d: usize = 0;
    while d < disks.len()
        invariant
            d <= disks.len(),
            0 < shape <= i32::MAX,
            n == shape,
            cells.len() == n * n,
            forall|e: int| 0 <= e < disks.len() ==> (#[trigger] disks@[e]).wf(),
            forall|p: int|
                0 <= p < n * n ==> #[trigger] cells@[p] == if is_obstacle(
                    n,
                    disks@.take(d as int),
                    p,
                ) {
                    F32_ONE
                } else {
                    F32_ZERO
                },
        decreases disks.len() - d,
    {
        let ghost before = cells@;
        add_disk(&mut cells, shape, disks[d]);
        proof {
            let old_disks = disks@.take(d as int);
            let new_disks = disks@.take(d + 1);
            assert forall|p: int| 0 <= p < n * n implies #[trigger] cells@[p] == if is_obstacle(
                n,
                new_disks,
                p,
            ) {
                F32_ONE
            } else {
                F32_ZERO
            } by {
                assert(before[p] == if is_obstacle(n, old_disks, p) {
                    F32_ONE
                } else {
                    F32_ZERO
                });
                assert(new_disks[d as int] == disks@[d as int]);
                assert(forall|e: int| 0 <= e < d ==> old_disks[e] == #[trigger] new_disks[e]);
                if exists|e: int|
                    0 <= e < old_disks.len() && (#[trigger] old_disks[e]).covers(p % n, p / n) {
                    let e = choose|e: int|
                        0 <= e < old_disks.len() && (#[trigger] old_disks[e]).covers(p % n, p / n);
                    assert(new_disks[e].covers(p % n, p / n));
                }
                if exists|e: int|
                    0 <= e < new_disks.len() && (#[trigger] new_disks[e]).covers(p % n, p / n) {
                    let e = choose|e: int|
                        0 <= e < new_disks.len() && (#[trigger] new_disks[e]).covers(p % n, p / n);
                    if e < d {
                        assert(old_disks[e].covers(p % n, p / n));
                    }
                }
            }
        }
        d = d + 1;
    }
    proof {
        assert(disks@.take(d as int) =~= disks@);
        assert(cells@ =~= obstacle_cells(n, disks@));
    }
    cells
}

/// `rand::Rng::gen_range` of the thread's generator: a number of a range. It is
/// trusted that the number lies in the range, which must not be empty; nothing is
/// said of which number it is.
#[verifier::external_body]
fn gen_range(low: usize, high: usize) -> (value: usize)
    requires
        low < high,
    ensures
        low <= value < high,
{
    rand::Rng::gen_range(&mut rand::thread_rng(), low..high)
}

/// A disk that a scene may hold: its centre keeps a sixth of the grid clear of each
/// edge, and its radius is from two to five.
pub open spec fn is_scene_disk(shape: int, disk: Disk) -> bool {
    &&& shape / 6 <= disk.cx < 5 * shape / 6
    &&& shape / 6 <= disk.cy < 5 * shape / 6
    &&& 2 <= disk.radius < 6
}

/// Random disks, each drawn by itself. Which disks come out is left to chance.
pub fn random_disks(shape: usize, count: usize) -> (disks: Vec<Disk>)
    requires
        2 <= shape,
        5 * shape <= usize::MAX,
    ensures
        disks.len() == count,
        forall|d: int| 0 <= d < count ==> is_scene_disk(shape as int, #[trigger] disks@[d]),
{
    let low: usize = shape / 6;
    let high: usize = 5 * shape / 6;
    let mut disks: Vec<Disk> = Vec::new();
    while disks.len() < count
        invariant
            disks.len() <= count,
            low == shape / 6,
            high == 5 * shape / 6,
            low < high,
            forall|d: int|
                0 <= d < disks.len() ==> is_scene_disk(shape as int, #[trigger] disks@[d]),
        decreases count - disks.len(),
    {
        let cx: usize = gen_range(low, high);
        let cy: usize = gen_range(low, high);
        let radius: i32 = gen_range(2, 6) as i32;
        disks.push(Disk { cx, cy, radius });
    }
    disks
}

/// The obstacles of a scene with random disks.
pub fn random_obstacles(shape: usize) -> (cells: Vec<u32>)
    requires
        2 <= shape <= i32::MAX - 6,
        7 * shape <= usize::MAX,
        shape * shape + shape + 2 <= usize::MAX,
    ensures
        exists|disks: Seq<Disk>|
            #![trigger obstacle_cells(shape as int, disks)]
            {
                &&& disks.len() == NUM_DISKS
                &&& forall|d: int|
                    0 <= d < disks.len() ==> is_scene_disk(shape as int, #[trigger] disks[d])
                &&& cells@ == obstacle_cells(shape as int, disks)
            },
{
    let disks: Vec<Disk> = random_disks(shape, NUM_DISKS);
    proof {
        assert forall|d: int| 0 <= d < disks.len() implies (#[trigger] disks@[d]).wf() by {
            assert(is_scene_disk(shape as int, disks@[d]));
        }
    }
    make_obstacles(shape, &disks)
}

/// The first and the last row of the grid are clear of obstacles, on every grid of at
/// least 36 cells a side.
pub proof fn edges_are_clear(shape: int, disks: Seq<Disk>, x: int)
    requires
        36 <= shape,
        0 <= x < shape,
        forall|d: int| 0 <= d < disks.len() ==> is_scene_disk(shape, #[trigger] disks[d]),
    ensures
        obstacle_cells(shape, disks)[x] == F32_ZERO,
        obstacle_cells(shape, disks)[(shape - 1) * shape + x] == F32_ZERO,
{
    let last = (shape - 1) * shape + x;
    lemma_cell(shape as nat, shape as nat, x, 0);
    lemma_cell(shape as nat, shape as nat, x, shape - 1);
    lemma_wall_rows(shape, shape / 3, 8, 5, x, 0);
    lemma_wall_rows(shape, 2 * shape / 3, 10, 7, x, 0);
    lemma_wall_rows(shape, shape / 3, 8, 5, x, shape - 1);
    lemma_wall_rows(shape, 2 * shape / 3, 10, 7, x, shape - 1);
    assert forall|d: int| 0 <= d < disks.len() implies !(#[trigger] disks[d]).covers(x, 0)
        && !disks[d].covers(x, shape - 1) by {
        let disk = disks[d];
        assert(is_scene_disk(shape, disk));
        if disk.covers(x, 0) {
            lemma_disk_bounds(x - disk.cx, 0 - disk.cy, disk.radius as int);
        }
        if disk.covers(x, shape - 1) {
            lemma_disk_bounds(x - disk.cx, shape - 1 - disk.cy, disk.radius as int);
        }
    }
    assert(!is_obstacle(shape, disks, x));
    assert(!is_obstacle(shape, disks, last));
}

/// The walls keep to their rows.
proof fn lemma_wall_rows(shape: int, wall: int, period: int, solid: int, x: int, row: int)
    requires
        36 <= shape,
        0 <= wall <= 2 * shape / 3,
        0 <= x < shape,
        row == 0 || row == shape - 1,
    ensures
        !on_wall(shape, wall, period, solid, row * shape + x),
{
    if on_wall(shape, wall, period, solid, row * shape + x) {
        let (y, dx) = choose|y: int, dx: int|
            #![trigger wall_cell(shape, wall, y, dx)]
            shape / 8 <= y < 7 * shape / 8 && y % period <= solid && 0 <= dx < 2 && wall_cell(
                shape,
                wall,
                y,
                dx,
            ) == row * shape + x;
        lemma_cell(shape as nat, shape as nat, wall + dx, y);
        lemma_cell(shape as nat, shape as nat, x, row);
    }
}

/// The words of the parameters of the picture: the size of the grid, and the width
/// and height of the screen.
pub fn render_params(grid_size: u32, width: u32, height: u32) -> (block: ParamBlock)
    ensures
        block.order == ByteOrder::Little,
        block.words@ == seq![
            Word::Unsigned(grid_size),
            Word::FloatOf(width as u64),
            Word::FloatOf(height as u64),
        ],
{
    ParamBlock {
        order: ByteOrder::Little,
        words: vec![
            Word::Unsigned(grid_size),
            Word::FloatOf(width as u64),
            Word::FloatOf(height as u64),
        ],
    }
}

} // verus!
