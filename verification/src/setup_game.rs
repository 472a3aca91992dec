//! Setting up a game's grids from its map: the tiles whose collision code
//! blocks movement are closed on every grid a search runs on.
use crate::libs::bitvec::cell_index;
use crate::libs::bytegrid::ByteGrid;
use crate::pathing::path_grid::{in_box, PathGrid};
use vstd::prelude::*;

verus! {

/// Whether a collision code blocks movement: codes 0, 3 and 4 do.
pub open spec fn blocks(code: usize) -> bool {
    code == 0 || code == 3 || code == 4
}

/// The tile of the `i`-th collision code of a map `width` tiles wide and
/// `height` tiles high: the map lists its rows from the top, the grids count
/// them from the bottom.
pub open spec fn tile_of(i: int, width: int, height: int) -> (int, int) {
    (i % width, height - i / width - 1)
}

/// The tiles whose collision codes, among `codes`, block movement, in the
/// order of the codes.
pub open spec fn blocked_spec(codes: Seq<usize>, width: int, height: int) -> Seq<(int, int)>
    decreases codes.len(),
{
    if codes.len() == 0 {
        seq![]
    } else {
        let rest = blocked_spec(codes.drop_last(), width, height);
        if blocks(codes.last()) {
            rest.push(tile_of(codes.len() - 1, width, height))
        } else {
            rest
        }
    }
}

/// The tiles, as integers.
pub open spec fn tiles_int(t: Seq<(isize, isize)>) -> Seq<(int, int)> {
    t.map_values(|p: (isize, isize)| (p.0 as int, p.1 as int))
}

/// Whether `(x, y)` is among `tiles`.
pub open spec fn among(tiles: Seq<(isize, isize)>, x: int, y: int) -> bool {
    exists|i: int| 0 <= i < tiles.len() && tiles[i].0 == x && #[trigger] tiles[i].1 == y
}

/// The tiles that a map's collision codes block, in the order of the codes.
pub fn blocked_tiles(collisions: &[usize], width: usize, height: usize) -> (r: Vec<(isize, isize)>)
    requires
        width > 0,
        collisions@.len() <= width * height,
        width * height <= isize::MAX,
    ensures
        tiles_int(r@) == blocked_spec(collisions@, width as int, height as int),
        forall|k: int|
            0 <= k < r@.len() ==> 0 <= #[trigger] r@[k].0 < width && 0 <= r@[k].1 < height,
{
    let mut out: Vec<(isize, isize)> = Vec::new();
    let mut i: usize = 0;
    while i < collisions.len()
        invariant
            width > 0,
            i <= collisions@.len(),
            collisions@.len() <= width * height,
            width * height <= isize::MAX,
            tiles_int(out@) == blocked_spec(collisions@.take(i as int), width as int, height as int),
            forall|k: int|
                0 <= k < out@.len() ==> 0 <= #[trigger] out@[k].0 < width && 0 <= out@[k].1 < height,
        decreases collisions@.len() - i,
    {
        let code = collisions[i];
        proof {
            assert(collisions@.take(i + 1).drop_last() =~= collisions@.take(i as int));
            assert(collisions@.take(i + 1).last() == code);
            assert(i / width < height) by (nonlinear_arith)
                requires
                    i < width * height,
                    width > 0,
            ;
            assert(height <= width * height) by (nonlinear_arith)
                requires
                    width > 0,
            ;
            assert(width <= width * height) by (nonlinear_arith)
                requires
                    i < width * height,
            ;
            assert(i % width < width) by (nonlinear_arith)
                requires
                    width > 0,
            ;
        }
        if code == 0 || code == 3 || code == 4 {
            let x = i % width;
            let y = height - i / width - 1;
            let ghost before = out@;
            out.push((x as isize, y as isize));
            proof {
                assert(tiles_int(out@) =~= tiles_int(before).push((x as int, y as int)));
            }
        }
        i = i + 1;
    }
    assert(collisions@.take(i as int) =~= collisions@);
    out
}

/// Closes each of `tiles` on a path grid, keeping its jump distances right.
pub fn close_path_tiles(grid: &mut PathGrid, tiles: &[(isize, isize)])
    requires
        old(grid).wf(),
        forall|k: int|
            0 <= k < tiles@.len() ==> isize::MIN < #[trigger] tiles@[k].0 < isize::MAX && isize::MIN
                < tiles@[k].1 < isize::MAX,
    ensures
        final(grid).wf(),
        final(grid).width() == old(grid).width(),
        final(grid).height() == old(grid).height(),
        forall|x: int, y: int|
            old(grid).inside(x, y) ==> #[trigger] final(grid).open_at(x, y) == (old(grid).open_at(x, y)
                && !among(tiles@, x, y)),
        old(grid).jumps_ok() ==> final(grid).jumps_ok(),
{
    let mut i: usize = 0;
    while i < tiles.len()
        invariant
            i <= tiles@.len(),
            grid.wf(),
            grid.width() == old(grid).width(),
            grid.height() == old(grid).height(),
            forall|k: int|
                0 <= k < tiles@.len() ==> isize::MIN < #[trigger] tiles@[k].0 < isize::MAX && isize::MIN
                    < tiles@[k].1 < isize::MAX,
            forall|x: int, y: int|
                old(grid).inside(x, y) ==> #[trigger] grid.open_at(x, y) == (old(grid).open_at(x, y)
                    && !among(tiles@.take(i as int), x, y)),
            old(grid).jumps_ok() ==> grid.jumps_ok(),
        decreases tiles@.len() - i,
    {
        let p = tiles[i];
        let ghost before = *grid;
        grid.close_point(p);
        proof {
            let t1 = tiles@.take(i + 1);
            let t0 = tiles@.take(i as int);
            assert forall|x: int, y: int| old(grid).inside(x, y) implies #[trigger] grid.open_at(x, y)
                == (old(grid).open_at(x, y) && !among(t1, x, y)) by {
                assert(before.inside(x, y));
                assert(grid.state(x, y) == if in_box(p, p, x, y) {
                    false
                } else {
                    before.state(x, y)
                });
                assert(in_box(p, p, x, y) == (x == p.0 && y == p.1));
                assert(before.open_at(x, y) == (old(grid).open_at(x, y) && !among(t0, x, y)));
                if among(t0, x, y) {
                    let j = choose|j: int| 0 <= j < t0.len() && t0[j].0 == x && #[trigger] t0[j].1 == y;
                    assert(t1[j] == t0[j]);
                }
                if x == p.0 && y == p.1 {
                    assert(t1[i as int] == p);
                }
                if among(t1, x, y) && !(x == p.0 && y == p.1) {
                    let j = choose|j: int| 0 <= j < t1.len() && t1[j].0 == x && #[trigger] t1[j].1 == y;
                    assert(j < i);
                    assert(t0[j] == t1[j]);
                }
            }
        }
        i = i + 1;
    }
    assert(tiles@.take(i as int) =~= tiles@);
}

/// Closes each of `tiles` on a byte grid; every tile must lie inside it.
pub fn close_byte_tiles(grid: &mut ByteGrid, tiles: &[(isize, isize)])
    requires
        old(grid).wf(),
        forall|k: int|
            0 <= k < tiles@.len() ==> 0 <= #[trigger] tiles@[k].0 < old(grid).width() && 0 <= tiles@[k].1
                < old(grid).height(),
    ensures
        final(grid).wf(),
        final(grid).width() == old(grid).width(),
        final(grid).height() == old(grid).height(),
        forall|x: int, y: int|
            #[trigger] final(grid).open_at(x, y) == (old(grid).open_at(x, y) && !among(tiles@, x, y)),
{
    let mut i: usize = 0;
    while i < tiles.len()
        invariant
            i <= tiles@.len(),
            grid.wf(),
            grid.width() == old(grid).width(),
            grid.height() == old(grid).height(),
            forall|k: int|
                0 <= k < tiles@.len() ==> 0 <= #[trigger] tiles@[k].0 < old(grid).width() && 0
                    <= tiles@[k].1 < old(grid).height(),
            forall|x: int, y: int|
                #[trigger] grid.open_at(x, y) == (old(grid).open_at(x, y) && !among(tiles@.take(i as int), x, y)),
        decreases tiles@.len() - i,
    {
        let p = tiles[i];
        let ghost before = *grid;
        let ghost w = grid.width();
        let ghost h = grid.height();
        proof {
            assert(0 <= p.0 < w && 0 <= p.1 < h);
            assert(p.1 * w + p.0 < w * h) by (nonlinear_arith)
                requires
                    0 <= p.0 < w,
                    0 <= p.1 < h,
            ;
            assert(0 <= p.1 * w) by (nonlinear_arith)
                requires
                    0 <= p.1,
                    0 <= w,
            ;
            assert(p.1 * w <= w * h) by (nonlinear_arith)
                requires
                    0 <= p.1 < h,
                    0 <= w,
            ;
        }
        grid.set_point(false, p);
        proof {
            let t1 = tiles@.take(i + 1);
            let t0 = tiles@.take(i as int);
            assert forall|x: int, y: int| #[trigger] grid.open_at(x, y) == (old(grid).open_at(x, y) && !among(
                t1,
                x,
                y,
            )) by {
                if 0 <= x < w && 0 <= y < h {
                    crate::libs::bitvec::lemma_cell_index(w, h, x, y, p.0 as int, p.1 as int);
                }
                assert(grid.open_at(x, y) == (before.open_at(x, y) && !(x == p.0 && y == p.1)));
                if among(t0, x, y) {
                    let j = choose|j: int| 0 <= j < t0.len() && t0[j].0 == x && #[trigger] t0[j].1 == y;
                    assert(t1[j] == t0[j]);
                }
                if x == p.0 && y == p.1 {
                    assert(t1[i as int] == p);
                }
                if among(t1, x, y) && !(x == p.0 && y == p.1) {
                    let j = choose|j: int| 0 <= j < t1.len() && t1[j].0 == x && #[trigger] t1[j].1 == y;
                    assert(j < i);
                    assert(t0[j] == t1[j]);
                }
            }
        }
        i = i + 1;
    }
    assert(tiles@.take(i as int) =~= tiles@);
}

} // verus!
