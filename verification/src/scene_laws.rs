//! Which cells of a scene are filled: the patches of noise, the walls and the disks.
use crate::convolve::lemma_cell;
use crate::scene::{
    is_obstacle, is_scene_disk, obstacle_cells, on_wall, seeded, seeded_cell, wall_cell, Disk,
};
use vstd::prelude::*;

verus! {

/// Which rows of a wall are solid at a column.
proof fn lemma_wall_columns(shape: int, wall: int, period: int, solid: int, x: int, y: int)
    requires
        0 <= wall,
        wall + 1 < shape,
        0 <= x < shape,
        0 <= y < shape,
    ensures
        on_wall(shape, wall, period, solid, y * shape + x) <==> shape / 8 <= y < 7 * shape / 8 && y
            % period <= solid && (x == wall || x == wall + 1),
{
    if on_wall(shape, wall, period, solid, y * shape + x) {
        let (row, dx) = choose|row: int, dx: int|
            #![trigger wall_cell(shape, wall, row, dx)]
            shape / 8 <= row < 7 * shape / 8 && row % period <= solid && 0 <= dx < 2 && wall_cell(
                shape,
                wall,
                row,
                dx,
            ) == y * shape + x;
        lemma_cell(shape as nat, shape as nat, wall + dx, row);
        lemma_cell(shape as nat, shape as nat, x, y);
    }
    if shape / 8 <= y < 7 * shape / 8 && y % period <= solid && (x == wall || x == wall + 1) {
        assert(wall_cell(shape, wall, y, x - wall) == y * shape + x);
    }
}

/// A cell of a scene is an obstacle exactly if it lies on one of the two walls, which are
/// two columns wide, stand at a third and at two thirds of the grid, leave an eighth of
/// the rows free at each end, and have two free rows in every eight or in every ten; or
/// if its distance from the centre of a disk is at most the radius of the disk.
pub proof fn obstacles_are_walls_and_disks(shape: int, disks: Seq<Disk>, x: int, y: int)
    requires
        4 <= shape,
        0 <= x < shape,
        0 <= y < shape,
    ensures
        ({
            let cell = obstacle_cells(shape, disks)[y * shape + x];
            let inside = shape / 8 <= y && y < 7 * shape / 8;
            let first = (x == shape / 3 || x == shape / 3 + 1) && y % 8 < 6;
            let second = (x == 2 * shape / 3 || x == 2 * shape / 3 + 1) && y % 10 < 8;
            let in_disk = exists|d: int|
                0 <= d < disks.len() && (x - (#[trigger] disks[d]).cx) * (x - disks[d].cx) + (y
                    - disks[d].cy) * (y - disks[d].cy) <= disks[d].radius * disks[d].radius;
            &&& obstacle_cells(shape, disks).len() == shape * shape
            &&& cell == 0x3f80_0000u32 || cell == 0u32
            &&& cell == 0x3f80_0000u32 <==> (inside && (first || second)) || in_disk
        }),
{
    let p = y * shape + x;
    lemma_cell(shape as nat, shape as nat, x, y);
    assert(0 <= shape * shape) by (nonlinear_arith);
    lemma_wall_columns(shape, shape / 3, 8, 5, x, y);
    lemma_wall_columns(shape, 2 * shape / 3, 10, 7, x, y);
    let in_disk = exists|d: int|
        0 <= d < disks.len() && (x - (#[trigger] disks[d]).cx) * (x - disks[d].cx) + (y
            - disks[d].cy) * (y - disks[d].cy) <= disks[d].radius * disks[d].radius;
    let covered = exists|d: int|
        0 <= d < disks.len() && (#[trigger] disks[d]).covers(p % shape, p / shape);
    if in_disk {
        let d = choose|d: int|
            0 <= d < disks.len() && (x - (#[trigger] disks[d]).cx) * (x - disks[d].cx) + (y
                - disks[d].cy) * (y - disks[d].cy) <= disks[d].radius * disks[d].radius;
        assert(disks[d].covers(p % shape, p / shape));
    }
    if covered {
        let d = choose|d: int|
            0 <= d < disks.len() && (#[trigger] disks[d]).covers(p % shape, p / shape);
        assert(disks[d].covers(x, y));
        assert(in_disk);
    }
    assert(is_obstacle(shape, disks, p) <==> on_wall(shape, shape / 3, 8, 5, p) || on_wall(
        shape,
        2 * shape / 3,
        10,
        7,
        p,
    ) || covered);
}

/// The same of the elements of a grid of any size, on the smallest of which a wall runs on
/// into the next row.
pub proof fn obstacles_of_any_grid(shape: int, disks: Seq<Disk>, p: int)
    requires
        0 < shape,
        0 <= p < shape * shape,
    ensures
        ({
            let rows = |y: int| shape / 8 <= y && y < 7 * shape / 8;
            let first = exists|y: int|
                rows(y) && y % 8 < 6 && (p == #[trigger] (y * shape) + shape / 3 || p == y * shape
                    + shape / 3 + 1);
            let second = exists|y: int|
                rows(y) && y % 10 < 8 && (p == #[trigger] (y * shape) + 2 * shape / 3 || p == y
                    * shape + 2 * shape / 3 + 1);
            let in_disk = exists|d: int|
                0 <= d < disks.len() && (p % shape - (#[trigger] disks[d]).cx) * (p % shape
                    - disks[d].cx) + (p / shape - disks[d].cy) * (p / shape - disks[d].cy)
                    <= disks[d].radius * disks[d].radius;
            obstacle_cells(shape, disks)[p] == if first || second || in_disk {
                0x3f80_0000u32
            } else {
                0u32
            }
        }),
{
    let rows = |y: int| shape / 8 <= y && y < 7 * shape / 8;
    lemma_wall_elements(shape, shape / 3, 8, 5, p);
    lemma_wall_elements(shape, 2 * shape / 3, 10, 7, p);
    let covered = exists|d: int|
        0 <= d < disks.len() && (#[trigger] disks[d]).covers(p % shape, p / shape);
    let in_disk = exists|d: int|
        0 <= d < disks.len() && (p % shape - (#[trigger] disks[d]).cx) * (p % shape - disks[d].cx)
            + (p / shape - disks[d].cy) * (p / shape - disks[d].cy) <= disks[d].radius
            * disks[d].radius;
    if in_disk {
        let d = choose|d: int|
            0 <= d < disks.len() && (p % shape - (#[trigger] disks[d]).cx) * (p % shape
                - disks[d].cx) + (p / shape - disks[d].cy) * (p / shape - disks[d].cy)
                <= disks[d].radius * disks[d].radius;
        assert(disks[d].covers(p % shape, p / shape));
    }
    if covered {
        let d = choose|d: int|
            0 <= d < disks.len() && (#[trigger] disks[d]).covers(p % shape, p / shape);
        assert(in_disk);
    }
}

/// Which elements a wall fills.
proof fn lemma_wall_elements(shape: int, wall: int, period: int, solid: int, p: int)
    ensures
        on_wall(shape, wall, period, solid, p) <==> exists|y: int|
            shape / 8 <= y && y < 7 * shape / 8 && y % period <= solid && (p == #[trigger] (y
                * shape) + wall || p == y * shape + wall + 1),
{
    if on_wall(shape, wall, period, solid, p) {
        let (y, dx) = choose|y: int, dx: int|
            #![trigger wall_cell(shape, wall, y, dx)]
            shape / 8 <= y < 7 * shape / 8 && y % period <= solid && 0 <= dx < 2 && wall_cell(
                shape,
                wall,
                y,
                dx,
            ) == p;
        assert(p == (y * shape) + wall || p == y * shape + wall + 1);
    }
    if exists|y: int|
        shape / 8 <= y && y < 7 * shape / 8 && y % period <= solid && (p == #[trigger] (y * shape)
            + wall || p == y * shape + wall + 1) {
        let y = choose|y: int|
            shape / 8 <= y && y < 7 * shape / 8 && y % period <= solid && (p == #[trigger] (y
                * shape) + wall || p == y * shape + wall + 1);
        assert(wall_cell(shape, wall, y, p - y * shape - wall) == p);
    }
}

/// A disk more adds obstacles around its own centre alone: a cell farther away than the
/// radius is as it was, and the centre and the ends of both diameters are filled.
pub proof fn a_disk_fills_its_surroundings(
    shape: int,
    disks: Seq<Disk>,
    disk: Disk,
    x: int,
    y: int,
)
    requires
        4 <= shape,
        0 <= x < shape,
        0 <= y < shape,
    ensures
        ({
            let before = obstacle_cells(shape, disks)[y * shape + x];
            let after = obstacle_cells(shape, disks.push(disk))[y * shape + x];
            let (dx, dy) = (x - disk.cx, y - disk.cy);
            &&& dx * dx + dy * dy > disk.radius * disk.radius ==> after == before
            &&& dx * dx + dy * dy <= disk.radius * disk.radius ==> after == 0x3f80_0000u32
        }),
{
    let more = disks.push(disk);
    obstacles_are_walls_and_disks(shape, disks, x, y);
    obstacles_are_walls_and_disks(shape, more, x, y);
    let n = disks.len() as int;
    assert(more[n] == disk);
    assert forall|d: int| 0 <= d < n implies disks[d] == #[trigger] more[d] by {}
    if exists|d: int|
        0 <= d < disks.len() && (x - (#[trigger] disks[d]).cx) * (x - disks[d].cx) + (y
            - disks[d].cy) * (y - disks[d].cy) <= disks[d].radius * disks[d].radius {
        let d = choose|d: int|
            0 <= d < disks.len() && (x - (#[trigger] disks[d]).cx) * (x - disks[d].cx) + (y
                - disks[d].cy) * (y - disks[d].cy) <= disks[d].radius * disks[d].radius;
        assert(more[d] == disks[d]);
    }
}

/// The disks of a scene are two to five cells in radius and keep to the middle two thirds
/// of the grid.
pub proof fn scene_disks_keep_to_the_middle(shape: int, disk: Disk)
    ensures
        is_scene_disk(shape, disk) <==> {
            &&& shape / 6 <= disk.cx
            &&& disk.cx < 5 * shape / 6
            &&& shape / 6 <= disk.cy
            &&& disk.cy < 5 * shape / 6
            &&& 1 < disk.radius <= 5
        },
{
}

/// A patch is a square of `size` cells a side. It starts half its size before the centre,
/// or at the edge of the grid if that is nearer, and its cells hold the draws, row by row.
/// All other cells are zero.
pub proof fn patches_are_squares_around_their_centres(
    centre: (usize, usize),
    size: int,
    draws: Seq<u64>,
    x: int,
    y: int,
)
    requires
        0 <= size,
        0 <= x,
        0 <= y,
    ensures
        ({
            let left = if centre.0 as int >= size / 2 {
                centre.0 - size / 2
            } else {
                0
            };
            let top = if centre.1 as int >= size / 2 {
                centre.1 - size / 2
            } else {
                0
            };
            seeded_cell(centre, size, draws, x, y) == if left <= x < left + size && top <= y < top
                + size {
                draws[(y - top) * size + (x - left)]
            } else {
                0u64
            }
        }),
{
}

/// A patch of noise holds, at every cell, what the noise gives for that cell.
pub proof fn noise_is_asked_for_every_cell<N: Fn(usize, usize) -> u64>(
    noise: N,
    centre: (usize, usize),
    size: int,
    x: usize,
    y: usize,
    cell: u64,
)
    requires
        0 <= size,
    ensures
        ({
            let left = if centre.0 as int >= size / 2 {
                centre.0 - size / 2
            } else {
                0
            };
            let top = if centre.1 as int >= size / 2 {
                centre.1 - size / 2
            } else {
                0
            };
            seeded(noise, centre, size, x as int, y as int, cell) <==> if left <= x < left + size
                && top <= y < top + size {
                noise.ensures((x, y), cell)
            } else {
                cell == 0
            }
        }),
{
}

} // verus!
