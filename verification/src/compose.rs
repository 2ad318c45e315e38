//! The mosaic compositor: reproduces a target image by stamping, for every
//! target pixel, the tile whose representative color is nearest to it.

use vstd::prelude::*;
use crate::color::{linear_of, to_linear};
use crate::dictionary::{ImageDictionary, closest_idx, colors_of, tile_ok};
use crate::errors::MosaicError;
use crate::grid::PixelGrid;

verus! {

/// The index of the tile chosen for target pixel `(x, y)`: the nearest tile
/// to that pixel's linear color.
pub open spec fn chosen_idx(dict: ImageDictionary, target: PixelGrid, x: int, y: int) -> int {
    closest_idx(colors_of(dict.tiles@), linear_of(target.pixel(x, y)))
}

/// One cell of a `t`-wide grid starts strictly after every earlier cell
/// ends.
proof fn lemma_cell_order(a: int, b: int, t: int, d: int)
    requires
        0 <= a < b,
        0 <= d < t,
    ensures
        a * t + d < b * t,
        a * t + t <= b * t,
{
    assert(a * t + d < b * t && a * t + t <= b * t) by (nonlinear_arith)
        requires
            0 <= a < b,
            0 <= d < t,
    ;
}

/// Distinct target pixels own disjoint canvas rectangles: the cells of two
/// different target pixels never address the same canvas pixel. This is the
/// ownership argument that lets the cells be filled independently, in any
/// order — or concurrently, each worker holding its own cells — before the
/// canvas is handed on.
pub proof fn lemma_cells_disjoint(
    tw: int,
    th: int,
    x1: int,
    y1: int,
    x2: int,
    y2: int,
    dx1: int,
    dy1: int,
    dx2: int,
    dy2: int,
)
    requires
        0 <= dx1 < tw,
        0 <= dy1 < th,
        0 <= dx2 < tw,
        0 <= dy2 < th,
        0 <= x1,
        0 <= y1,
        0 <= x2,
        0 <= y2,
        !(x1 == x2 && y1 == y2),
    ensures
        !(x1 * tw + dx1 == x2 * tw + dx2 && y1 * th + dy1 == y2 * th + dy2),
{
    if x1 * tw + dx1 == x2 * tw + dx2 && y1 * th + dy1 == y2 * th + dy2 {
        crate::grid::lemma_grid_index_injective(dx1, x1, dx2, x2, tw);
        crate::grid::lemma_grid_index_injective(dy1, y1, dy2, y2, th);
    }
}

/// Composes the mosaic: a canvas of one tile-sized cell per target pixel,
/// each cell filled with the pixel buffer of the tile whose representative
/// color is nearest to that target pixel's color. An empty dictionary is
/// rejected before any cell is composed.
pub fn image_of_image(dict: &ImageDictionary, target: &PixelGrid) -> (r: Result<
    PixelGrid,
    MosaicError,
>)
    requires
        dict.renderable(),
        target.wf(),
        target.width * dict.images_size.0 <= u32::MAX,
        target.height * dict.images_size.1 <= u32::MAX,
        (target.width * dict.images_size.0) * (target.height * dict.images_size.1)
            <= usize::MAX,
    ensures
        match r {
            Err(e) => e == MosaicError::EmptyDictionary && dict.tiles@.len() == 0,
            Ok(canvas) => {
                &&& dict.tiles@.len() > 0
                &&& canvas.wf()
                &&& canvas.width == target.width * dict.images_size.0
                &&& canvas.height == target.height * dict.images_size.1
                &&& forall|x: int, y: int, dx: int, dy: int|
                    0 <= x < target.width && 0 <= y < target.height && 0 <= dx
                        < dict.images_size.0 && 0 <= dy < dict.images_size.1
                        ==> #[trigger] canvas.pixel(
                        x * dict.images_size.0 + dx,
                        y * dict.images_size.1 + dy,
                    ) == dict.tiles@[chosen_idx(*dict, *target, x, y)].pixels->Some_0.pixel(
                        dx,
                        dy,
                    )
            },
        },
{
    if dict.tiles.len() == 0 {
        return Err(MosaicError::EmptyDictionary);
    }
    let (tw, th) = (dict.images_size.0, dict.images_size.1);
    let (w, h) = (target.width, target.height);
    let cw: u32 = w * tw;
    let ch: u32 = h * th;
    let mut canvas = PixelGrid::new(cw, ch);
    let mut y: u32 = 0;
    while y < h
        invariant
            dict.renderable(),
            target.wf(),
            dict.tiles@.len() > 0,
            tw == dict.images_size.0,
            th == dict.images_size.1,
            w == target.width,
            h == target.height,
            cw == w * tw,
            ch == h * th,
            y <= h,
            canvas.wf(),
            canvas.width == cw,
            canvas.height == ch,
            forall|x2: int, y2: int, dx: int, dy: int|
                0 <= x2 < w && 0 <= y2 < y && 0 <= dx < tw && 0 <= dy < th
                    ==> #[trigger] canvas.pixel(x2 * tw + dx, y2 * th + dy) == dict.tiles@[
                    chosen_idx(*dict, *target, x2, y2)].pixels->Some_0.pixel(dx, dy),
        decreases h - y,
    {
        let mut x: u32 = 0;
        while x < w
            invariant
                dict.renderable(),
                target.wf(),
                dict.tiles@.len() > 0,
                tw == dict.images_size.0,
                th == dict.images_size.1,
                w == target.width,
                h == target.height,
                cw == w * tw,
                ch == h * th,
                y < h,
                x <= w,
                canvas.wf(),
                canvas.width == cw,
                canvas.height == ch,
                forall|x2: int, y2: int, dx: int, dy: int|
                    0 <= x2 < w && 0 <= y2 < y && 0 <= dx < tw && 0 <= dy < th
                        ==> #[trigger] canvas.pixel(x2 * tw + dx, y2 * th + dy)
                        == dict.tiles@[chosen_idx(*dict, *target, x2, y2)].pixels
                        ->Some_0.pixel(dx, dy),
                forall|x2: int, dx: int, dy: int|
                    0 <= x2 < x && 0 <= dx < tw && 0 <= dy < th
                        ==> #[trigger] canvas.pixel(x2 * tw + dx, y * th + dy)
                        == dict.tiles@[chosen_idx(*dict, *target, x2, y as int)].pixels
                        ->Some_0.pixel(dx, dy),
            decreases w - x,
        {
            let p = target.get_pixel(x, y);
            let q = to_linear(p);
            let idx = dict.get_closest(&q);
            proof {
                assert(idx == chosen_idx(*dict, *target, x as int, y as int));
                assert(tile_ok(dict.tiles@[idx as int], dict.images_size));
                assert(x * tw + tw <= cw) by (nonlinear_arith)
                    requires
                        0 <= x < w,
                        tw >= 0,
                        cw == w * tw,
                ;
                assert(y * th + th <= ch) by (nonlinear_arith)
                    requires
                        0 <= y < h,
                        th >= 0,
                        ch == h * th,
                ;
            }
            let ox: u32 = x * tw;
            let oy: u32 = y * th;
            let ghost canvas0 = canvas;
            match &dict.tiles[idx].pixels {
                Some(buffer) => {
                    canvas.absorbe(buffer, ox, oy);
                },
                None => {
                    proof {
                        assert(false);
                    }
                },
            }
            proof {
                let t = tw as int;
                let u = th as int;
                assert forall|x2: int, y2: int, dx: int, dy: int|
                    0 <= x2 < w && 0 <= y2 < y && 0 <= dx < t && 0 <= dy < u implies #[trigger]
                    canvas.pixel(x2 * t + dx, y2 * u + dy) == dict.tiles@[chosen_idx(
                    *dict,
                    *target,
                    x2,
                    y2,
                )].pixels->Some_0.pixel(dx, dy) by {
                    lemma_cell_order(y2, y as int, u, dy);
                    assert(y2 * u + dy < y * u);
                    if x2 < w {
                        lemma_cell_order(x2, w as int, t, dx);
                    }
                    assert(0 <= x2 * t + dx < cw) by (nonlinear_arith)
                        requires
                            0 <= x2 < w,
                            0 <= dx < t,
                            cw == w * t,
                    ;
                    assert(canvas.pixel(x2 * t + dx, y2 * u + dy) == canvas0.pixel(
                        x2 * t + dx,
                        y2 * u + dy,
                    ));
                }
                assert forall|x2: int, dx: int, dy: int|
                    0 <= x2 < x + 1 && 0 <= dx < t && 0 <= dy < u implies #[trigger]
                    canvas.pixel(x2 * t + dx, y * u + dy) == dict.tiles@[chosen_idx(
                    *dict,
                    *target,
                    x2,
                    y as int,
                )].pixels->Some_0.pixel(dx, dy) by {
                    if x2 < x {
                        lemma_cell_order(x2, x as int, t, dx);
                        assert(x2 * t + dx < x * t);
                        assert(0 <= x2 * t + dx) by (nonlinear_arith)
                            requires
                                0 <= x2,
                                0 <= dx,
                                0 <= t,
                        ;
                        assert(y * u + dy < ch) by (nonlinear_arith)
                            requires
                                y < h,
                                0 <= dy < u,
                                ch == h * u,
                        ;
                        assert(canvas.pixel(x2 * t + dx, y * u + dy) == canvas0.pixel(
                            x2 * t + dx,
                            y * u + dy,
                        ));
                    } else {
                        assert(x2 == x as int);
                        assert(canvas.pixel(x as int * t + dx, y as int * u + dy)
                            == dict.tiles@[idx as int].pixels->Some_0.pixel(dx, dy));
                    }
                }
            }
            x = x + 1;
        }
        y = y + 1;
    }
    Ok(canvas)
}

} // verus!
