//! Grid maze router: A* search over an obstacle grid per copper layer, with
//! layer changes through vias, and rip-up-and-retry passes that reorder the
//! nets.

use vstd::prelude::*;
use crate::dsn::{
    DsnDesign, DesignView, LayerView, NetView, PinRefView, WireView, PadShape, PadShapeView, Side,
    PinOffsets, Point, coord_ok, coord_limit, offsets_fit, places_in_range, pad_position,
    find_image, find_padstack, image_of_component, lemma_pad_inputs_ok, padstack_index, shape_layer, shape_layer_exec,
    pin_offset, lemma_pad_position_range, images_view, padstacks_view, Net, PinRef,
    get_pad_position, find_placement, find_pin, image_index, find_place, pin_index,
};
use crate::text::{str_eq, string_from_chars, decimal_of, push_decimal};
use crate::heap::MinHeap;

verus! {

#[derive(Debug, Clone)]
pub struct RoutedWire {
    pub net_name: String,
    pub layer: String,
    pub width: i64,
    pub points: Vec<(i64, i64)>,
}

#[derive(Debug, Clone)]
pub struct RoutedVia {
    pub net_name: String,
    pub padstack_name: String,
    pub x: i64,
    pub y: i64,
}

#[derive(Debug, Clone)]
pub struct RoutingResult {
    pub wires: Vec<RoutedWire>,
    pub vias: Vec<RoutedVia>,
    pub unrouted: Vec<String>,
}

// ─── collinear merge ──────────────────────────────────────────────────────────

/// Whether `cur` is a bend on the way from `prev` to `next`.
pub open spec fn is_bend(prev: (i64, i64), cur: (i64, i64), next: (i64, i64)) -> bool {
    (cur.0 - prev.0) * (next.1 - cur.1) != (cur.1 - prev.1) * (next.0 - cur.0)
}

/// The points kept from `pts[i..len-1]` after `kept`: each inner point that
/// bends the line from the last point kept to the next point.
pub open spec fn kept_bends(pts: Seq<(i64, i64)>, i: int, kept: Seq<(i64, i64)>) -> Seq<(i64, i64)>
    decreases pts.len() - i,
{
    if i < 1 || i >= pts.len() - 1 || kept.len() == 0 {
        kept
    } else if is_bend(kept.last(), pts[i], pts[i + 1]) {
        kept_bends(pts, i + 1, kept.push(pts[i]))
    } else {
        kept_bends(pts, i + 1, kept)
    }
}

/// A polyline without its straight-through points: the first and last
/// points, and each point where the direction from the last point kept to the
/// next point changes.
pub open spec fn merged(pts: Seq<(i64, i64)>) -> Seq<(i64, i64)> {
    if pts.len() <= 2 {
        pts
    } else {
        kept_bends(pts, 1, seq![pts[0]]).push(pts.last())
    }
}

proof fn lemma_kept_bends(pts: Seq<(i64, i64)>, i: int, kept: Seq<(i64, i64)>)
    requires
        1 <= i,
        kept.len() >= 1,
    ensures
        kept_bends(pts, i, kept).len() >= kept.len(),
        kept_bends(pts, i, kept)[0] == kept[0],
    decreases pts.len() - i,
{
    if i < pts.len() - 1 {
        if is_bend(kept.last(), pts[i], pts[i + 1]) {
            lemma_kept_bends(pts, i + 1, kept.push(pts[i]));
        } else {
            lemma_kept_bends(pts, i + 1, kept);
        }
    }
}

/// The coordinate range of grid points.
pub open spec fn grid_coord_ok(v: i64) -> bool {
    -0x1_0000_0000_0000 <= v <= 0x1_0000_0000_0000
}

pub open spec fn point_ok(p: (i64, i64)) -> bool {
    grid_coord_ok(p.0) && grid_coord_ok(p.1)
}

proof fn lemma_product_bound(a: i128, b: i128)
    requires
        -0x2_0000_0000_0000 <= a <= 0x2_0000_0000_0000,
        -0x2_0000_0000_0000 <= b <= 0x2_0000_0000_0000,
    ensures
        -0x4_0000_0000_0000_0000_0000_0000 <= a * b <= 0x4_0000_0000_0000_0000_0000_0000,
{
    assert(-0x4_0000_0000_0000_0000_0000_0000 <= a * b <= 0x4_0000_0000_0000_0000_0000_0000) by (nonlinear_arith)
        requires
            -0x2_0000_0000_0000 <= a <= 0x2_0000_0000_0000,
            -0x2_0000_0000_0000 <= b <= 0x2_0000_0000_0000,
    ;
}

/// Drops the straight-through points of a polyline (see [`merged`]).
fn merge_collinear(pts: Vec<(i64, i64)>) -> (r: Vec<(i64, i64)>)
    requires
        forall|k: int| 0 <= k < pts@.len() ==> point_ok(#[trigger] pts@[k]),
    ensures
        r@ == merged(pts@),
        pts@.len() >= 2 ==> r@.len() >= 2 && r@[0] == pts@[0] && r@.last() == pts@.last(),
{
    if pts.len() <= 2 {
        return pts;
    }
    let mut result: Vec<(i64, i64)> = Vec::new();
    result.push(pts[0]);
    let n = pts.len();
    let mut i: usize = 1;
    while i < n - 1
        invariant
            n == pts.len(),
            n > 2,
            1 <= i <= n - 1,
            result@.len() >= 1,
            result@[0] == pts@[0],
            forall|k: int| 0 <= k < pts@.len() ==> point_ok(#[trigger] pts@[k]),
            forall|k: int| 0 <= k < result@.len() ==> point_ok(#[trigger] result@[k]),
            kept_bends(pts@, 1, seq![pts@[0]]) == kept_bends(pts@, i as int, result@),
        decreases n - 1 - i,
    {
        let prev = result[result.len() - 1];
        let cur = pts[i];
        let next = pts[i + 1];
        let dx1 = cur.0 as i128 - prev.0 as i128;
        let dy1 = cur.1 as i128 - prev.1 as i128;
        let dx2 = next.0 as i128 - cur.0 as i128;
        let dy2 = next.1 as i128 - cur.1 as i128;
        proof {
            assert(pts@[i as int] == cur && pts@[i + 1] == next);
            lemma_product_bound(dx1, dy2);
            lemma_product_bound(dy1, dx2);
        }
        if dx1 * dy2 != dy1 * dx2 {
            result.push(cur);
        }
        i = i + 1;
    }
    proof {
        lemma_kept_bends(pts@, 1, seq![pts@[0]]);
    }
    result.push(pts[n - 1]);
    result
}

// ─── obstacle grid ────────────────────────────────────────────────────────────

/// Index of a cell among `layers` planes of `w` by `h` cells.
pub open spec fn cell(w: int, h: int, gx: int, gy: int, l: int) -> int {
    l * (w * h) + (gy * w + gx)
}

proof fn lemma_cell(w: int, h: int, n: int, gx: int, gy: int, l: int)
    requires
        0 <= gx < w,
        0 <= gy < h,
        0 <= l < n,
    ensures
        0 <= gy * w + gx < w * h,
        0 <= cell(w, h, gx, gy, l) < n * (w * h),
        cell(w, h, gx, gy, l) / (w * h) == l,
        cell(w, h, gx, gy, l) % (w * h) == gy * w + gx,
        (gy * w + gx) / w == gy,
        (gy * w + gx) % w == gx,
{
    assert(0 <= gy * w + gx < w * h) by (nonlinear_arith)
        requires
            0 <= gx < w,
            0 <= gy < h,
    ;
    assert(0 <= l * (w * h) + (gy * w + gx) < n * (w * h)) by (nonlinear_arith)
        requires
            0 <= l < n,
            0 <= gy * w + gx < w * h,
    ;
    vstd::arithmetic::div_mod::lemma_fundamental_div_mod_converse(
        cell(w, h, gx, gy, l),
        w * h,
        l,
        gy * w + gx,
    );
    vstd::arithmetic::div_mod::lemma_fundamental_div_mod_converse(gy * w + gx, w, gy, gx);
}

proof fn lemma_cell_injective(w: int, h: int, gx: int, gy: int, l: int, gx2: int, gy2: int, l2: int)
    requires
        0 <= gx < w,
        0 <= gy < h,
        0 <= l,
        0 <= gx2 < w,
        0 <= gy2 < h,
        0 <= l2,
        cell(w, h, gx, gy, l) == cell(w, h, gx2, gy2, l2),
    ensures
        gx == gx2 && gy == gy2 && l == l2,
{
    lemma_cell(w, h, l + 1, gx, gy, l);
    lemma_cell(w, h, l2 + 1, gx2, gy2, l2);
}

/// Obstacles: one plane of cells per layer.
struct Grid {
    width: usize,
    height: usize,
    num_layers: usize,
    /// `obstacles[cell(width, height, gx, gy, layer)]`
    obstacles: Vec<bool>,
    grid_size: i64,
    offset_x: i64,
    offset_y: i64,
}

impl Grid {
    spec fn wf(&self) -> bool {
        &&& 1 <= self.width <= 2048
        &&& 1 <= self.height <= 2048
        &&& 1 <= self.num_layers <= 256
        &&& self.obstacles@.len() == self.num_layers * (self.width * self.height)
        &&& 1 <= self.grid_size <= 0x10_0000_0000
        &&& -0x40_0000_0000 <= self.offset_x <= 0x40_0000_0000
        &&& -0x40_0000_0000 <= self.offset_y <= 0x40_0000_0000
    }

    spec fn inside(&self, gx: int, gy: int) -> bool {
        0 <= gx < self.width && 0 <= gy < self.height
    }

    spec fn at(&self, l: int, gx: int, gy: int) -> int {
        cell(self.width as int, self.height as int, gx, gy, l)
    }

    /// Whether a cell inside the grid is blocked.
    spec fn blocked(&self, l: int, gx: int, gy: int) -> bool {
        self.obstacles@[self.at(l, gx, gy)]
    }

    fn new(
        grid_size: i64,
        offset_x: i64,
        offset_y: i64,
        width: usize,
        height: usize,
        num_layers: usize,
    ) -> (g: Self)
        requires
            1 <= width <= 2048,
            1 <= height <= 2048,
            1 <= num_layers <= 256,
            1 <= grid_size <= 0x10_0000_0000,
            -0x40_0000_0000 <= offset_x <= 0x40_0000_0000,
            -0x40_0000_0000 <= offset_y <= 0x40_0000_0000,
        ensures
            g.wf(),
            g.width == width && g.height == height && g.num_layers == num_layers,
            g.grid_size == grid_size && g.offset_x == offset_x && g.offset_y == offset_y,
            forall|k: int| 0 <= k < g.obstacles@.len() ==> !#[trigger] g.obstacles@[k],
    {
        assert(num_layers * (width * height) <= 0x4000_0000) by (nonlinear_arith)
            requires
                1 <= width <= 2048,
                1 <= height <= 2048,
                1 <= num_layers <= 256,
        ;
        assert(width * height <= 2048 * 2048) by (nonlinear_arith)
            requires
                1 <= width <= 2048,
                1 <= height <= 2048,
        ;
        let size = num_layers * (width * height);
        let mut obstacles: Vec<bool> = Vec::new();
        let mut i: usize = 0;
        while i < size
            invariant
                i <= size,
                obstacles@.len() == i,
                forall|k: int| 0 <= k < i ==> !#[trigger] obstacles@[k],
            decreases size - i,
        {
            obstacles.push(false);
            i = i + 1;
        }
        Grid { width, height, num_layers, obstacles, grid_size, offset_x, offset_y }
    }

    /// The cell that holds a design point.
    fn dsn_to_grid(&self, x: i64, y: i64) -> (r: (i64, i64))
        requires
            self.wf(),
            -0x20_0000_0000 <= x <= 0x20_0000_0000,
            -0x20_0000_0000 <= y <= 0x20_0000_0000,
        ensures
            r.0 == trunc_div(x - self.offset_x, self.grid_size as int),
            r.1 == trunc_div(y - self.offset_y, self.grid_size as int),
            -0x100_0000_0000 <= r.0 <= 0x100_0000_0000,
            -0x100_0000_0000 <= r.1 <= 0x100_0000_0000,
    {
        ((x - self.offset_x) / self.grid_size, (y - self.offset_y) / self.grid_size)
    }

    /// The design point at the centre of a cell.
    fn grid_to_dsn_center(&self, gx: i64, gy: i64) -> (r: (i64, i64))
        requires
            self.wf(),
            self.inside(gx as int, gy as int),
        ensures
            r.0 == self.offset_x + gx * self.grid_size + self.grid_size / 2,
            r.1 == self.offset_y + gy * self.grid_size + self.grid_size / 2,
            point_ok(r),
    {
        assert(0 <= gx * self.grid_size <= 2048 * 0x10_0000_0000) by (nonlinear_arith)
            requires
                0 <= gx < 2048,
                1 <= self.grid_size <= 0x10_0000_0000,
        ;
        assert(0 <= gy * self.grid_size <= 2048 * 0x10_0000_0000) by (nonlinear_arith)
            requires
                0 <= gy < 2048,
                1 <= self.grid_size <= 0x10_0000_0000,
        ;
        (
            self.offset_x + gx * self.grid_size + self.grid_size / 2,
            self.offset_y + gy * self.grid_size + self.grid_size / 2,
        )
    }

    fn in_bounds(&self, gx: i64, gy: i64) -> (r: bool)
        ensures
            r == self.inside(gx as int, gy as int),
    {
        gx >= 0 && gy >= 0 && (gx as u64) < (self.width as u64) && (gy as u64) < (self.height as u64)
    }

    fn index(&self, layer: usize, gx: i64, gy: i64) -> (r: usize)
        requires
            self.wf(),
            layer < self.num_layers,
            self.inside(gx as int, gy as int),
        ensures
            r as int == self.at(layer as int, gx as int, gy as int),
            r < self.obstacles@.len(),
    {
        proof {
            lemma_cell(
                self.width as int,
                self.height as int,
                self.num_layers as int,
                gx as int,
                gy as int,
                layer as int,
            );
        }
        assert(self.width * self.height <= 2048 * 2048) by (nonlinear_arith)
            requires
                1 <= self.width <= 2048,
                1 <= self.height <= 2048,
        ;
        assert(layer * (self.width * self.height) <= 256 * (2048 * 2048)) by (nonlinear_arith)
            requires
                layer < 256,
                self.width * self.height <= 2048 * 2048,
        ;
        assert(gy * self.width <= 2048 * 2048) by (nonlinear_arith)
            requires
                0 <= gy < 2048,
                1 <= self.width <= 2048,
        ;
        layer * (self.width * self.height) + (gy as usize * self.width + gx as usize)
    }

    /// Whether a cell is blocked; every cell outside the grid is.
    fn is_obstacle(&self, layer: usize, gx: i64, gy: i64) -> (r: bool)
        requires
            self.wf(),
            layer < self.num_layers,
        ensures
            r == (!self.inside(gx as int, gy as int) || self.blocked(
                layer as int,
                gx as int,
                gy as int,
            )),
    {
        if !self.in_bounds(gx, gy) {
            return true;
        }
        self.obstacles[self.index(layer, gx, gy)]
    }

    /// Sets one cell (when it is inside the grid) to `value`.
    fn put(&mut self, layer: usize, gx: i64, gy: i64, value: bool)
        requires
            old(self).wf(),
            layer < old(self).num_layers,
        ensures
            final(self).wf(),
            final(self).same_frame(*old(self)),
            final(self).obstacles@ == if old(self).inside(gx as int, gy as int) {
                old(self).obstacles@.update(old(self).at(layer as int, gx as int, gy as int), value)
            } else {
                old(self).obstacles@
            },
    {
        if self.in_bounds(gx, gy) {
            let k = self.index(layer, gx, gy);
            self.obstacles.set(k, value);
        }
    }

    spec fn same_frame(&self, other: Grid) -> bool {
        &&& self.width == other.width
        &&& self.height == other.height
        &&& self.num_layers == other.num_layers
        &&& self.grid_size == other.grid_size
        &&& self.offset_x == other.offset_x
        &&& self.offset_y == other.offset_y
    }

    fn set_obstacle(&mut self, layer: usize, gx: i64, gy: i64)
        requires
            old(self).wf(),
            layer < old(self).num_layers,
        ensures
            final(self).wf(),
            final(self).same_frame(*old(self)),
            final(self).obstacles@ == if old(self).inside(gx as int, gy as int) {
                old(self).obstacles@.update(old(self).at(layer as int, gx as int, gy as int), true)
            } else {
                old(self).obstacles@
            },
    {
        self.put(layer, gx, gy, true);
    }

    /// Sets every cell of `layer` within distance `r` of `(cx, cy)` (and
    /// inside the grid) to `value`.
    fn fill_circle(&mut self, layer: usize, cx: i64, cy: i64, r: i64, value: bool)
        requires
            old(self).wf(),
            layer < old(self).num_layers,
            -0x100_0000_0000 <= cx <= 0x100_0000_0000,
            -0x100_0000_0000 <= cy <= 0x100_0000_0000,
            -0x40_0000_0000 <= r <= 0x40_0000_0000,
        ensures
            final(self).wf(),
            final(self).same_frame(*old(self)),
            forall|l: int, gx: int, gy: int|
                #![trigger final(self).blocked(l, gx, gy)]
                0 <= l < old(self).num_layers && old(self).inside(gx, gy) ==> final(self).blocked(
                    l,
                    gx,
                    gy,
                ) == if l == layer && in_circle(cx as int, cy as int, r as int, gx, gy) {
                    value
                } else {
                    old(self).blocked(l, gx, gy)
                },
    {
        let ghost g0 = *self;
        let mut dy: i64 = -r;
        while dy <= r
            invariant
                self.wf(),
                self.same_frame(g0),
                layer < self.num_layers,
                -0x100_0000_0000 <= cx <= 0x100_0000_0000,
                -0x100_0000_0000 <= cy <= 0x100_0000_0000,
                -0x40_0000_0000 <= r <= 0x40_0000_0000,
                -r <= dy,
                dy <= r + 1 || dy == -r,
                forall|l: int, gx: int, gy: int|
                    #![trigger self.blocked(l, gx, gy)]
                    0 <= l < g0.num_layers && g0.inside(gx, gy) ==> self.blocked(l, gx, gy) == if l
                        == layer && in_circle(cx as int, cy as int, r as int, gx, gy) && gy - cy
                        < dy {
                        value
                    } else {
                        g0.blocked(l, gx, gy)
                    },
            decreases r + 1 - dy,
        {
            let ghost row0 = *self;
            let mut dx: i64 = -r;
            while dx <= r
                invariant
                    self.wf(),
                    self.same_frame(g0),
                    layer < self.num_layers,
                    -0x100_0000_0000 <= cx <= 0x100_0000_0000,
                    -0x100_0000_0000 <= cy <= 0x100_0000_0000,
                    -0x40_0000_0000 <= r <= 0x40_0000_0000,
                    -r <= dy <= r,
                    -r <= dx <= r + 1,
                    forall|l: int, gx: int, gy: int|
                        #![trigger self.blocked(l, gx, gy)]
                        0 <= l < g0.num_layers && g0.inside(gx, gy) ==> self.blocked(l, gx, gy)
                            == if l == layer && in_circle(cx as int, cy as int, r as int, gx, gy)
                            && (gy - cy < dy || (gy - cy == dy && gx - cx < dx)) {
                            value
                        } else {
                            g0.blocked(l, gx, gy)
                        },
                decreases r + 1 - dx,
            {
                let ghost before = *self;
                proof {
                    lemma_square_bounds(dx as int, dy as int, r as int);
                }
                let d2 = (dx as i128) * (dx as i128) + (dy as i128) * (dy as i128);
                let r2 = (r as i128) * (r as i128);
                if d2 <= r2 {
                    self.put(layer, cx + dx, cy + dy, value);
                    proof {
                        assert forall|l: int, gx: int, gy: int|
                            0 <= l < g0.num_layers && g0.inside(gx, gy) implies #[trigger] self.blocked(
                            l,
                            gx,
                            gy,
                        ) == if l == layer && in_circle(cx as int, cy as int, r as int, gx, gy) && (
                        gy - cy < dy || (gy - cy == dy && gx - cx < dx + 1)) {
                            value
                        } else {
                            g0.blocked(l, gx, gy)
                        } by {
                            lemma_cell(g0.width as int, g0.height as int, g0.num_layers as int, gx, gy, l);
                            if g0.inside(cx + dx, cy + dy) {
                                let k = g0.at(layer as int, cx + dx, cy + dy);
                                lemma_cell(
                                    g0.width as int,
                                    g0.height as int,
                                    g0.num_layers as int,
                                    cx + dx,
                                    cy + dy,
                                    layer as int,
                                );
                                if g0.at(l, gx, gy) == k {
                                    lemma_cell_injective(
                                        g0.width as int,
                                        g0.height as int,
                                        gx,
                                        gy,
                                        l,
                                        cx + dx,
                                        cy + dy,
                                        layer as int,
                                    );
                                    assert(in_circle(cx as int, cy as int, r as int, gx, gy));
                                    assert(self.blocked(l, gx, gy) == value);
                                } else {
                                    assert(self.blocked(l, gx, gy) == before.blocked(l, gx, gy));
                                    if l == layer && gy - cy == dy && gx - cx == dx {
                                        assert(g0.at(l, gx, gy) == k);
                                    }
                                }
                            } else {
                                assert(self.blocked(l, gx, gy) == before.blocked(l, gx, gy));
                            }
                        }
                    }
                } else {
                    proof {
                        assert forall|l: int, gx: int, gy: int|
                            0 <= l < g0.num_layers && g0.inside(gx, gy) implies #[trigger] self.blocked(
                            l,
                            gx,
                            gy,
                        ) == if l == layer && in_circle(cx as int, cy as int, r as int, gx, gy) && (
                        gy - cy < dy || (gy - cy == dy && gx - cx < dx + 1)) {
                            value
                        } else {
                            g0.blocked(l, gx, gy)
                        } by {
                            assert(before.blocked(l, gx, gy) == self.blocked(l, gx, gy));
                        }
                    }
                }
                dx = dx + 1;
            }
            proof {
                assert forall|l: int, gx: int, gy: int|
                    0 <= l < g0.num_layers && g0.inside(gx, gy) implies #[trigger] self.blocked(
                    l,
                    gx,
                    gy,
                ) == if l == layer && in_circle(cx as int, cy as int, r as int, gx, gy) && gy - cy
                    < dy + 1 {
                    value
                } else {
                    g0.blocked(l, gx, gy)
                } by {
                    if l == layer && in_circle(cx as int, cy as int, r as int, gx, gy) && gy - cy
                        == dy {
                        assert(gx - cx <= r);
                    }
                }
            }
            dy = dy + 1;
        }
    }

    /// Every cell of the grid `g0` that `hit` names is set to `value`; every
    /// other cell is as it was in `g0`.
    spec fn fills(&self, g0: Grid, hit: spec_fn(int, int, int) -> bool, value: bool) -> bool {
        forall|l: int, gx: int, gy: int|
            #![trigger self.blocked(l, gx, gy)]
            0 <= l < g0.num_layers && g0.inside(gx, gy) ==> self.blocked(l, gx, gy) == if hit(l, gx, gy) {
                value
            } else {
                g0.blocked(l, gx, gy)
            }
    }

    /// Blocks every cell of `layer` within distance `r` of `(cx, cy)`.
    fn mark_circle(&mut self, layer: usize, cx: i64, cy: i64, r: i64)
        requires
            old(self).wf(),
            layer < old(self).num_layers,
            -0x100_0000_0000 <= cx <= 0x100_0000_0000,
            -0x100_0000_0000 <= cy <= 0x100_0000_0000,
            -0x40_0000_0000 <= r <= 0x40_0000_0000,
        ensures
            final(self).wf(),
            final(self).same_frame(*old(self)),
            final(self).fills(*old(self), circle_hit(layer as int, cx as int, cy as int, r as int), true),
    {
        self.fill_circle(layer, cx, cy, r, true);
    }

    /// Frees every cell of `layer` within distance `r` of `(cx, cy)`.
    fn clear_circle(&mut self, layer: usize, cx: i64, cy: i64, r: i64)
        requires
            old(self).wf(),
            layer < old(self).num_layers,
            -0x100_0000_0000 <= cx <= 0x100_0000_0000,
            -0x100_0000_0000 <= cy <= 0x100_0000_0000,
            -0x40_0000_0000 <= r <= 0x40_0000_0000,
        ensures
            final(self).wf(),
            final(self).same_frame(*old(self)),
            final(self).fills(*old(self), circle_hit(layer as int, cx as int, cy as int, r as int), false),
    {
        self.fill_circle(layer, cx, cy, r, false);
    }
}

/// The cells of `layer` within distance `r` of `(cx, cy)`.
pub open spec fn circle_hit(layer: int, cx: int, cy: int, r: int) -> spec_fn(int, int, int) -> bool {
    |l: int, gx: int, gy: int| l == layer && in_circle(cx, cy, r, gx, gy)
}

/// Filling what `h1` names, then what `h2` names, with one value, fills
/// what either names.
proof fn lemma_fills_then(
    g0: Grid,
    g1: Grid,
    g2: Grid,
    h1: spec_fn(int, int, int) -> bool,
    h2: spec_fn(int, int, int) -> bool,
    h: spec_fn(int, int, int) -> bool,
    v: bool,
)
    requires
        g1.fills(g0, h1, v),
        g2.fills(g1, h2, v),
        g1.same_frame(g0),
        forall|l: int, gx: int, gy: int| #[trigger] h(l, gx, gy) == (h1(l, gx, gy) || h2(l, gx, gy)),
    ensures
        g2.fills(g0, h, v),
{
    assert forall|l: int, gx: int, gy: int|
        0 <= l < g0.num_layers && g0.inside(gx, gy) implies #[trigger] g2.blocked(l, gx, gy) == if h(l, gx, gy) {
        v
    } else {
        g0.blocked(l, gx, gy)
    } by {
        assert(g1.blocked(l, gx, gy) == if h1(l, gx, gy) { v } else { g0.blocked(l, gx, gy) });
        assert(h(l, gx, gy) == (h1(l, gx, gy) || h2(l, gx, gy)));
    }
}

/// Filling is the same for two names of one set of cells.
proof fn lemma_fills_same(g0: Grid, g1: Grid, h1: spec_fn(int, int, int) -> bool, h: spec_fn(int, int, int) -> bool, v: bool)
    requires
        g1.fills(g0, h1, v),
        forall|l: int, gx: int, gy: int| #[trigger] h(l, gx, gy) == h1(l, gx, gy),
    ensures
        g1.fills(g0, h, v),
{
    assert forall|l: int, gx: int, gy: int|
        0 <= l < g0.num_layers && g0.inside(gx, gy) implies #[trigger] g1.blocked(l, gx, gy) == if h(l, gx, gy) {
        v
    } else {
        g0.blocked(l, gx, gy)
    } by {
        assert(h(l, gx, gy) == h1(l, gx, gy));
    }
}

/// A grid fills nothing of itself.
proof fn lemma_fills_none(g: Grid, h: spec_fn(int, int, int) -> bool, v: bool)
    requires
        forall|l: int, gx: int, gy: int| !#[trigger] h(l, gx, gy),
    ensures
        g.fills(g, h, v),
{
    assert forall|l: int, gx: int, gy: int|
        0 <= l < g.num_layers && g.inside(gx, gy) implies #[trigger] g.blocked(l, gx, gy) == if h(l, gx, gy) {
        v
    } else {
        g.blocked(l, gx, gy)
    } by {
        assert(!h(l, gx, gy));
    }
}

// ─── search workspace ─────────────────────────────────────────────────────────

/// A cell of the search: a grid position on a layer.
#[derive(Clone, Copy, PartialEq, Eq, Structural)]
struct State {
    gx: i32,
    gy: i32,
    layer: u8,
}

/// Reusable arrays for the searches, one entry per cell. An entry of `dist`
/// or `prev` counts only when its `generation` is the current one, so a new
/// search needs no reset.
struct BfsWorkspace {
    dist: Vec<u32>,
    prev: Vec<u32>,
    generation: Vec<u16>,
    current_gen: u16,
    target: Vec<bool>,
    target_indices: Vec<usize>,
    width: usize,
    height: usize,
    num_layers: usize,
}

impl BfsWorkspace {
    spec fn size(&self) -> int {
        self.num_layers * (self.width * self.height)
    }

    spec fn wf(&self) -> bool {
        &&& 1 <= self.width <= 2048
        &&& 1 <= self.height <= 2048
        &&& 1 <= self.num_layers <= 256
        &&& self.dist@.len() == self.size()
        &&& self.prev@.len() == self.size()
        &&& self.generation@.len() == self.size()
        &&& self.target@.len() == self.size()
        &&& forall|i: int| 0 <= i < self.size() ==> #[trigger] self.generation@[i] <= self.current_gen
        &&& forall|k: int|
            0 <= k < self.target_indices@.len() ==> #[trigger] self.target_indices@[k] < self.size()
                && self.target@[self.target_indices@[k] as int]
        &&& forall|i: int|
            0 <= i < self.size() && #[trigger] self.target@[i] ==> self.target_indices@.contains(
                i as usize,
            )
    }

    /// Whether the entries of cell `i` belong to the current search.
    spec fn live(&self, i: int) -> bool {
        self.generation@[i] == self.current_gen
    }

    spec fn dist_of(&self, i: int) -> u32 {
        if self.live(i) {
            self.dist@[i]
        } else {
            u32::MAX
        }
    }

    spec fn at(&self, gx: int, gy: int, l: int) -> int {
        cell(self.width as int, self.height as int, gx, gy, l)
    }

    spec fn holds(&self, s: State) -> bool {
        0 <= s.gx < self.width && 0 <= s.gy < self.height && s.layer < self.num_layers
    }

    spec fn index_of(&self, s: State) -> int {
        self.at(s.gx as int, s.gy as int, s.layer as int)
    }

    fn new(width: usize, height: usize, num_layers: usize) -> (ws: Self)
        requires
            1 <= width <= 2048,
            1 <= height <= 2048,
            1 <= num_layers <= 256,
        ensures
            ws.wf(),
            ws.width == width && ws.height == height && ws.num_layers == num_layers,
            ws.target_indices@.len() == 0,
    {
        assert(width * height <= 2048 * 2048) by (nonlinear_arith)
            requires
                1 <= width <= 2048,
                1 <= height <= 2048,
        ;
        assert(num_layers * (width * height) <= 256 * (2048 * 2048)) by (nonlinear_arith)
            requires
                1 <= num_layers <= 256,
                width * height <= 2048 * 2048,
        ;
        let size = num_layers * (width * height);
        let mut dist: Vec<u32> = Vec::new();
        let mut prev: Vec<u32> = Vec::new();
        let mut generation: Vec<u16> = Vec::new();
        let mut target: Vec<bool> = Vec::new();
        let mut i: usize = 0;
        while i < size
            invariant
                i <= size,
                dist@.len() == i && prev@.len() == i && generation@.len() == i && target@.len()
                    == i,
                forall|k: int| 0 <= k < i ==> #[trigger] generation@[k] == 0,
                forall|k: int| 0 <= k < i ==> !#[trigger] target@[k],
            decreases size - i,
        {
            dist.push(u32::MAX);
            prev.push(u32::MAX);
            generation.push(0);
            target.push(false);
            i = i + 1;
        }
        BfsWorkspace {
            dist,
            prev,
            generation,
            current_gen: 0,
            target,
            target_indices: Vec::new(),
            width,
            height,
            num_layers,
        }
    }

    /// Starts a search: no entry belongs to it yet.
    fn new_search(&mut self)
        requires
            old(self).wf(),
        ensures
            final(self).wf(),
            final(self).same_shape(*old(self)),
            final(self).target@ == old(self).target@,
            final(self).target_indices@ == old(self).target_indices@,
            forall|i: int| 0 <= i < final(self).size() ==> !final(self).live(i),
    {
        let ghost s0 = *self;
        self.current_gen = self.current_gen.wrapping_add(1);
        if self.current_gen == 0 {
            let n = self.generation.len();
            let mut i: usize = 0;
            while i < n
                invariant
                    n == self.generation@.len(),
                    n == s0.size(),
                    self.same_shape(s0),
                    self.dist@ == s0.dist@,
                    self.prev@ == s0.prev@,
                    self.target@ == s0.target@,
                    self.target_indices@ == s0.target_indices@,
                    i <= n,
                    forall|k: int| 0 <= k < i ==> #[trigger] self.generation@[k] == 0,
                decreases n - i,
            {
                self.generation.set(i, 0);
                i = i + 1;
            }
            self.current_gen = 1;
        }
    }

    spec fn same_shape(&self, other: BfsWorkspace) -> bool {
        &&& self.width == other.width
        &&& self.height == other.height
        &&& self.num_layers == other.num_layers
    }

    fn idx(&self, gx: i32, gy: i32, layer: usize) -> (r: usize)
        requires
            self.wf(),
            0 <= gx < self.width,
            0 <= gy < self.height,
            layer < self.num_layers,
        ensures
            r as int == self.at(gx as int, gy as int, layer as int),
            r < self.size(),
    {
        proof {
            lemma_cell(
                self.width as int,
                self.height as int,
                self.num_layers as int,
                gx as int,
                gy as int,
                layer as int,
            );
        }
        assert(self.width * self.height <= 2048 * 2048) by (nonlinear_arith)
            requires
                1 <= self.width <= 2048,
                1 <= self.height <= 2048,
        ;
        assert(layer * (self.width * self.height) <= 256 * (2048 * 2048)) by (nonlinear_arith)
            requires
                layer < 256,
                self.width * self.height <= 2048 * 2048,
        ;
        assert(gy * self.width <= 2048 * 2048) by (nonlinear_arith)
            requires
                0 <= gy < 2048,
                1 <= self.width <= 2048,
        ;
        layer * (self.width * self.height) + (gy as usize) * self.width + (gx as usize)
    }

    fn mark_target(&mut self, gx: i32, gy: i32, layer: usize)
        requires
            old(self).wf(),
            0 <= gx < old(self).width,
            0 <= gy < old(self).height,
            layer < old(self).num_layers,
        ensures
            final(self).wf(),
            final(self).same_shape(*old(self)),
            final(self).target@ == old(self).target@.update(
                old(self).at(gx as int, gy as int, layer as int),
                true,
            ),
            final(self).dist@ == old(self).dist@,
            final(self).prev@ == old(self).prev@,
            final(self).generation@ == old(self).generation@,
            final(self).current_gen == old(self).current_gen,
    {
        let i = self.idx(gx, gy, layer);
        if !self.target[i] {
            self.target.set(i, true);
            self.target_indices.push(i);
            proof {
                assert(self.target_indices@.last() == i);
                assert forall|j: int|
                    0 <= j < self.size() && #[trigger] self.target@[j] implies self.target_indices@.contains(
                    j as usize,
                ) by {
                    if j != i {
                        let k = old(self).target_indices@.index_of(j as usize);
                        assert(self.target_indices@[k] == j as usize);
                    }
                }
            }
        } else {
            assert(self.target@ =~= old(self).target@.update(i as int, true));
        }
    }

    fn clear_targets(&mut self)
        requires
            old(self).wf(),
        ensures
            final(self).wf(),
            final(self).same_shape(*old(self)),
            forall|i: int| 0 <= i < final(self).size() ==> !#[trigger] final(self).target@[i],
            final(self).target_indices@.len() == 0,
            final(self).dist@ == old(self).dist@,
            final(self).prev@ == old(self).prev@,
            final(self).generation@ == old(self).generation@,
            final(self).current_gen == old(self).current_gen,
    {
        let n = self.target_indices.len();
        let mut k: usize = 0;
        while k < n
            invariant
                n == self.target_indices@.len(),
                k <= n,
                self.target@.len() == old(self).target@.len(),
                self.target_indices@ == old(self).target_indices@,
                self.same_shape(*old(self)),
                self.dist@ == old(self).dist@,
                self.prev@ == old(self).prev@,
                self.generation@ == old(self).generation@,
                self.current_gen == old(self).current_gen,
                old(self).wf(),
                forall|j: int| 0 <= j < n ==> #[trigger] self.target_indices@[j] < self.size(),
                forall|i: int|
                    0 <= i < self.size() && #[trigger] self.target@[i] ==> exists|j: int|
                        k <= j < n && self.target_indices@[j] == i as usize,
            decreases n - k,
        {
            let i = self.target_indices[k];
            let ghost t0 = self.target@;
            assert(forall|x: int|
                0 <= x < self.size() && #[trigger] t0[x] ==> exists|j: int|
                    k <= j < n && self.target_indices@[j] == x as usize);
            self.target.set(i, false);
            proof {
                assert forall|x: int|
                    0 <= x < self.size() && #[trigger] self.target@[x] implies exists|j: int|
                        k + 1 <= j < n && self.target_indices@[j] == x as usize by {
                    assert(x != i as int);
                    assert(t0[x]);
                    assert(self.size() <= 256 * (2048 * 2048)) by (nonlinear_arith)
                        requires
                            1 <= self.width <= 2048,
                            1 <= self.height <= 2048,
                            1 <= self.num_layers <= 256,
                    ;
                    assert((x as usize) as int == x);
                    assert(self.target_indices@[k as int] == i);
                    let j = choose|j: int| k <= j < n && self.target_indices@[j] == x as usize;
                    assert(j != k);
                }
            }
            k = k + 1;
        }
        self.target_indices.clear();
    }

    fn get_dist(&self, i: usize) -> (r: u32)
        requires
            self.wf(),
            i < self.size(),
        ensures
            r == self.dist_of(i as int),
    {
        if self.generation[i] == self.current_gen {
            self.dist[i]
        } else {
            u32::MAX
        }
    }

    fn get_prev(&self, i: usize) -> (r: u32)
        requires
            self.wf(),
            i < self.size(),
        ensures
            r == if self.live(i as int) {
                self.prev@[i as int]
            } else {
                u32::MAX
            },
    {
        if self.generation[i] == self.current_gen {
            self.prev[i]
        } else {
            u32::MAX
        }
    }

    fn set_dist_prev(&mut self, i: usize, d: u32, p: u32)
        requires
            old(self).wf(),
            i < old(self).size(),
        ensures
            final(self).wf(),
            final(self).same_shape(*old(self)),
            final(self).dist@ == old(self).dist@.update(i as int, d),
            final(self).prev@ == old(self).prev@.update(i as int, p),
            final(self).generation@ == old(self).generation@.update(
                i as int,
                old(self).current_gen,
            ),
            final(self).current_gen == old(self).current_gen,
            final(self).target@ == old(self).target@,
            final(self).target_indices@ == old(self).target_indices@,
    {
        self.dist.set(i, d);
        self.prev.set(i, p);
        let g = self.current_gen;
        self.generation.set(i, g);
    }

    fn decode_index(&self, i: usize) -> (s: State)
        requires
            self.wf(),
            i < self.size(),
        ensures
            self.holds(s),
            self.index_of(s) == i,
    {
        assert(1 <= self.width * self.height <= 2048 * 2048) by (nonlinear_arith)
            requires
                1 <= self.width <= 2048,
                1 <= self.height <= 2048,
        ;
        let layer_size = self.width * self.height;
        let layer = i / layer_size;
        let rem = i % layer_size;
        let gy = rem / self.width;
        let gx = rem % self.width;
        proof {
            vstd::arithmetic::div_mod::lemma_fundamental_div_mod(i as int, layer_size as int);
            vstd::arithmetic::div_mod::lemma_fundamental_div_mod(rem as int, self.width as int);
            assert(layer < self.num_layers) by (nonlinear_arith)
                requires
                    i < self.num_layers * layer_size,
                    layer == i / layer_size,
                    layer_size >= 1,
            ;
            assert(gy < self.height) by (nonlinear_arith)
                requires
                    rem < self.width * self.height,
                    gy == rem / self.width,
                    self.width >= 1,
            ;
            assert(layer * layer_size == layer_size * layer) by (nonlinear_arith);
            assert(gy * self.width == self.width * gy) by (nonlinear_arith);
        }
        State { gx: gx as i32, gy: gy as i32, layer: layer as u8 }
    }
}

// ─── heap keys ────────────────────────────────────────────────────────────────

/// The heap key of a search entry (estimated total cost `f`, cost so far
/// `g`, cell): ordering keys orders entries by `f`, then `g`, then the cell's
/// x, y and layer.
pub open spec fn key_value(f: u32, g: u32, gx: int, gy: int, l: int) -> int {
    f * 0x1_0000_0000_0000_0000_0000_0000 + g * 0x1_0000_0000_0000_0000 + gx * 0x100_0000_0000 + gy
        * 0x1_0000 + l
}

spec fn key_g(k: u128) -> u32 {
    ((k / 0x1_0000_0000_0000_0000) % 0x1_0000_0000) as u32
}

spec fn key_state(k: u128) -> State {
    State {
        gx: ((k / 0x100_0000_0000) % 0x100_0000) as i32,
        gy: ((k / 0x1_0000) % 0x100_0000) as i32,
        layer: (k % 0x1_0000) as u8,
    }
}

proof fn lemma_key_decode(f: u32, g: u32, gx: int, gy: int, l: int)
    requires
        0 <= gx < 0x100_0000,
        0 <= gy < 0x100_0000,
        0 <= l < 0x100,
    ensures
        0 <= key_value(f, g, gx, gy, l) < 0x1_0000_0000_0000_0000_0000_0000_0000_0000,
        key_g(key_value(f, g, gx, gy, l) as u128) == g,
        key_state(key_value(f, g, gx, gy, l) as u128) == (State {
            gx: gx as i32,
            gy: gy as i32,
            layer: l as u8,
        }),
{
    let k = key_value(f, g, gx, gy, l);
    let r3 = gy * 0x1_0000 + l;
    let r2 = gx * 0x100_0000_0000 + r3;
    let r1 = g * 0x1_0000_0000_0000_0000 + r2;
    assert(0 <= r3 < 0x100_0000_0000) by (nonlinear_arith)
        requires
            0 <= gy < 0x100_0000,
            0 <= l < 0x100,
            r3 == gy * 0x1_0000 + l,
    ;
    assert(0 <= r2 < 0x1_0000_0000_0000_0000) by (nonlinear_arith)
        requires
            0 <= gx < 0x100_0000,
            0 <= r3 < 0x100_0000_0000,
            r2 == gx * 0x100_0000_0000 + r3,
    ;
    assert(0 <= r1 < 0x1_0000_0000_0000_0000_0000_0000) by (nonlinear_arith)
        requires
            0 <= g < 0x1_0000_0000,
            0 <= r2 < 0x1_0000_0000_0000_0000,
            r1 == g * 0x1_0000_0000_0000_0000 + r2,
    ;
    assert(0 <= k < 0x1_0000_0000_0000_0000_0000_0000_0000_0000) by (nonlinear_arith)
        requires
            0 <= f < 0x1_0000_0000,
            0 <= r1 < 0x1_0000_0000_0000_0000_0000_0000,
            k == f * 0x1_0000_0000_0000_0000_0000_0000 + r1,
    ;
    // k / 2^64 = f * 2^32 + g, with remainder r2
    let q64 = f * 0x1_0000_0000 + g;
    assert(k == q64 * 0x1_0000_0000_0000_0000 + r2) by (nonlinear_arith)
        requires
            k == f * 0x1_0000_0000_0000_0000_0000_0000 + r1,
            r1 == g * 0x1_0000_0000_0000_0000 + r2,
            q64 == f * 0x1_0000_0000 + g,
    ;
    vstd::arithmetic::div_mod::lemma_fundamental_div_mod_converse(k, 0x1_0000_0000_0000_0000, q64, r2);
    vstd::arithmetic::div_mod::lemma_fundamental_div_mod_converse(q64, 0x1_0000_0000, f as int, g as int);
    // k / 2^40 = (f * 2^32 + g) * 2^24 + gx, with remainder r3
    let q40 = q64 * 0x100_0000 + gx;
    assert(k == q40 * 0x100_0000_0000 + r3) by (nonlinear_arith)
        requires
            k == q64 * 0x1_0000_0000_0000_0000 + r2,
            r2 == gx * 0x100_0000_0000 + r3,
            q40 == q64 * 0x100_0000 + gx,
    ;
    vstd::arithmetic::div_mod::lemma_fundamental_div_mod_converse(k, 0x100_0000_0000, q40, r3);
    vstd::arithmetic::div_mod::lemma_fundamental_div_mod_converse(q40, 0x100_0000, q64, gx);
    // k / 2^16 = q40 * 2^24 + gy, with remainder l
    let q16 = q40 * 0x100_0000 + gy;
    assert(k == q16 * 0x1_0000 + l) by (nonlinear_arith)
        requires
            k == q40 * 0x100_0000_0000 + r3,
            r3 == gy * 0x1_0000 + l,
            q16 == q40 * 0x100_0000 + gy,
    ;
    vstd::arithmetic::div_mod::lemma_fundamental_div_mod_converse(k, 0x1_0000, q16, l);
    vstd::arithmetic::div_mod::lemma_fundamental_div_mod_converse(q16, 0x100_0000, q40, gy);
}

fn pack(f: u32, g: u32, s: State) -> (k: u128)
    requires
        0 <= s.gx < 0x100_0000,
        0 <= s.gy < 0x100_0000,
    ensures
        k as int == key_value(f, g, s.gx as int, s.gy as int, s.layer as int),
        key_g(k) == g,
        key_state(k) == s,
{
    proof {
        lemma_key_decode(f, g, s.gx as int, s.gy as int, s.layer as int);
    }
    (f as u128) * 0x1_0000_0000_0000_0000_0000_0000 + (g as u128) * 0x1_0000_0000_0000_0000
        + (s.gx as u128) * 0x100_0000_0000 + (s.gy as u128) * 0x1_0000 + (s.layer as u128)
}

fn unpack(k: u128) -> (r: (u32, State))
    ensures
        r.0 == key_g(k),
        r.1 == key_state(k),
{
    let g = ((k / 0x1_0000_0000_0000_0000) % 0x1_0000_0000) as u32;
    let gx = ((k / 0x100_0000_0000) % 0x100_0000) as i32;
    let gy = ((k / 0x1_0000) % 0x100_0000) as i32;
    let layer = (k % 0x1_0000) as u8;
    (g, State { gx, gy, layer })
}

// ─── A* search ────────────────────────────────────────────────────────────────

/// Octile distance in grid steps, with 10 per straight and 14 per diagonal step.
pub open spec fn octile(dx: int, dy: int) -> int {
    let a = if dx < 0 {
        -dx
    } else {
        dx
    };
    let b = if dy < 0 {
        -dy
    } else {
        dy
    };
    let d = if a < b {
        a
    } else {
        b
    };
    let m = if a < b {
        b
    } else {
        a
    };
    (m - d) * 10 + d * 14
}

/// The A* estimate of the cost from `(gx, gy)` to the target centre.
fn heuristic(gx: i32, gy: i32, tcx: i64, tcy: i64) -> (r: u32)
    requires
        -0x10_0000 <= gx <= 0x10_0000,
        -0x10_0000 <= gy <= 0x10_0000,
        -0x10_0000 <= tcx <= 0x10_0000,
        -0x10_0000 <= tcy <= 0x10_0000,
    ensures
        r as int == octile(gx - tcx, gy - tcy),
        r <= 0x200_0000,
{
    let ddx = gx as i64 - tcx;
    let ddy = gy as i64 - tcy;
    let dx: u32 = if ddx < 0 {
        (-ddx) as u32
    } else {
        ddx as u32
    };
    let dy: u32 = if ddy < 0 {
        (-ddy) as u32
    } else {
        ddy as u32
    };
    let diag = if dx < dy {
        dx
    } else {
        dy
    };
    let straight = (if dx < dy {
        dy
    } else {
        dx
    }) - diag;
    straight * 10 + diag * 14
}

/// One move of the search: a king's step on the same layer, or a change of
/// layer in place onto a signal layer.
spec fn step_ok(a: State, b: State, sig: Seq<usize>) -> bool {
    ||| (a.layer == b.layer && -1 <= b.gx - a.gx <= 1 && -1 <= b.gy - a.gy <= 1 && (b.gx != a.gx
        || b.gy != a.gy))
    ||| (a.gx == b.gx && a.gy == b.gy && a.layer != b.layer && sig.contains(b.layer as usize))
}

spec fn is_start(starts: Seq<(i32, i32, usize)>, s: State) -> bool {
    starts.contains((s.gx, s.gy, s.layer as usize))
}

/// A path of the search: from a start cell to a target cell, each step a move
/// onto a cell that is free or a target.
spec fn valid_path(
    grid: &Grid,
    ws: &BfsWorkspace,
    starts: Seq<(i32, i32, usize)>,
    sig: Seq<usize>,
    p: Seq<State>,
) -> bool {
    &&& p.len() >= 1
    &&& forall|i: int| 0 <= i < p.len() ==> #[trigger] ws.holds(p[i])
    &&& is_start(starts, p[0])
    &&& ws.target@[ws.index_of(p.last())]
    &&& forall|i: int|
        1 <= i < p.len() ==> step_ok(p[i - 1], #[trigger] p[i], sig) && enterable(grid, ws, p[i])
}

spec fn enterable(grid: &Grid, ws: &BfsWorkspace, s: State) -> bool {
    !grid.blocked(s.layer as int, s.gx as int, s.gy as int) || ws.target@[ws.index_of(s)]
}

impl BfsWorkspace {
    spec fn state_at(&self, i: int) -> State {
        State {
            gx: ((i % (self.width * self.height)) % self.width as int) as i32,
            gy: ((i % (self.width * self.height)) / self.width as int) as i32,
            layer: (i / (self.width * self.height)) as u8,
        }
    }
}

/// Integer division rounding toward zero, as `/` on machine integers does.
pub open spec fn trunc_div(a: int, b: int) -> int {
    if a >= 0 {
        a / b
    } else {
        -((-a) / b)
    }
}

/// Whether `(gx, gy)` lies within distance `r` of `(cx, cy)`.
pub open spec fn in_circle(cx: int, cy: int, r: int, gx: int, gy: int) -> bool {
    -r <= gx - cx <= r && -r <= gy - cy <= r && (gx - cx) * (gx - cx) + (gy - cy) * (gy - cy) <= r
        * r
}

proof fn lemma_square_bounds(dx: int, dy: int, r: int)
    requires
        -0x40_0000_0001 <= dx <= 0x40_0000_0001,
        -0x40_0000_0001 <= dy <= 0x40_0000_0001,
        -0x40_0000_0000 <= r <= 0x40_0000_0000,
    ensures
        0 <= dx * dx <= 0x2000_0000_0000_0000_0000,
        0 <= dy * dy <= 0x2000_0000_0000_0000_0000,
        0 <= dx * dx + dy * dy <= 0x4000_0000_0000_0000_0000,
        0 <= r * r <= 0x1000_0000_0000_0000_0000,
{
    assert(0 <= dx * dx <= 0x2000_0000_0000_0000_0000) by (nonlinear_arith)
        requires
            -0x40_0000_0001 <= dx <= 0x40_0000_0001,
    ;
    assert(0 <= dy * dy <= 0x2000_0000_0000_0000_0000) by (nonlinear_arith)
        requires
            -0x40_0000_0001 <= dy <= 0x40_0000_0001,
    ;
    assert(0 <= r * r <= 0x1000_0000_0000_0000_0000) by (nonlinear_arith)
        requires
            -0x40_0000_0000 <= r <= 0x40_0000_0000,
    ;
}

// ─── search invariants ────────────────────────────────────────────────────────

/// Sum of a sequence of integers.
spec fn seq_sum(s: Seq<int>) -> int
    decreases s.len(),
{
    if s.len() == 0 {
        0
    } else {
        seq_sum(s.drop_last()) + s.last()
    }
}

proof fn lemma_sum_nonneg(s: Seq<int>)
    requires
        forall|i: int| 0 <= i < s.len() ==> #[trigger] s[i] >= 0,
    ensures
        seq_sum(s) >= 0,
    decreases s.len(),
{
    if s.len() > 0 {
        lemma_sum_nonneg(s.drop_last());
    }
}

proof fn lemma_sum_update(s: Seq<int>, i: int, v: int)
    requires
        0 <= i < s.len(),
    ensures
        seq_sum(s.update(i, v)) == seq_sum(s) - s[i] + v,
    decreases s.len(),
{
    if i == s.len() - 1 {
        assert(s.update(i, v).drop_last() =~= s.drop_last());
    } else {
        lemma_sum_update(s.drop_last(), i, v);
        assert(s.update(i, v).drop_last() =~= s.drop_last().update(i, v));
    }
}

impl BfsWorkspace {
    /// The costs of all cells, `u32::MAX` for those not reached yet.
    spec fn dists(&self) -> Seq<int> {
        Seq::new(self.size() as nat, |i: int| self.dist_of(i) as int)
    }

    /// What bounds the work left: the costs only ever fall.
    spec fn potential(&self) -> int {
        seq_sum(self.dists())
    }
}

proof fn lemma_state_index(ws: &BfsWorkspace, s: State)
    requires
        ws.wf(),
        ws.holds(s),
    ensures
        ws.state_at(ws.index_of(s)) == s,
        0 <= ws.index_of(s) < ws.size(),
{
    lemma_cell(
        ws.width as int,
        ws.height as int,
        ws.num_layers as int,
        s.gx as int,
        s.gy as int,
        s.layer as int,
    );
}

/// How cell `i` was reached: from a start cell, or by a legal move from a
/// cell reached more cheaply.
spec fn link_ok(
    grid: &Grid,
    ws: &BfsWorkspace,
    starts: Seq<(i32, i32, usize)>,
    sig: Seq<usize>,
    i: int,
) -> bool {
    let p = ws.prev@[i];
    if p == u32::MAX {
        is_start(starts, ws.state_at(i))
    } else {
        &&& p < ws.size()
        &&& ws.live(p as int)
        &&& ws.dist_of(p as int) < ws.dist_of(i)
        &&& step_ok(ws.state_at(p as int), ws.state_at(i), sig)
        &&& enterable(grid, ws, ws.state_at(i))
    }
}

/// A heap entry names a cell of the grid, reached at a cost no more than the
/// entry's.
spec fn entry_ok(ws: &BfsWorkspace, k: u128) -> bool {
    let s = key_state(k);
    &&& ws.holds(s)
    &&& ws.dist_of(ws.index_of(s)) <= key_g(k)
    &&& key_g(k) < u32::MAX
}

spec fn search_inv(
    grid: &Grid,
    ws: &BfsWorkspace,
    heap: &MinHeap,
    starts: Seq<(i32, i32, usize)>,
    sig: Seq<usize>,
) -> bool {
    &&& grid.wf()
    &&& ws.wf()
    &&& heap.wf()
    &&& grid.width == ws.width && grid.height == ws.height && grid.num_layers == ws.num_layers
    &&& forall|k: int| 0 <= k < sig.len() ==> #[trigger] sig[k] < ws.num_layers
    &&& forall|i: int| 0 <= i < ws.size() && #[trigger] ws.live(i) ==> link_ok(grid, ws, starts, sig, i)
    &&& forall|k: u128| #[trigger] heap.keys().count(k) > 0 ==> entry_ok(ws, k)
}

/// After one cell's cost falls, every link and every heap entry stays good.
proof fn lemma_lower_keeps(
    grid: &Grid,
    ws0: &BfsWorkspace,
    ws1: &BfsWorkspace,
    heap: &MinHeap,
    starts: Seq<(i32, i32, usize)>,
    sig: Seq<usize>,
    j: int,
    d: u32,
)
    requires
        search_inv(grid, ws0, heap, starts, sig),
        0 <= j < ws0.size(),
        d < ws0.dist_of(j),
        ws1.wf(),
        ws1.same_shape(*ws0),
        ws1.dist@ == ws0.dist@.update(j, d),
        ws1.generation@ == ws0.generation@.update(j, ws0.current_gen),
        ws1.current_gen == ws0.current_gen,
        ws1.prev@.len() == ws0.prev@.len(),
        forall|i: int| 0 <= i < ws0.size() && i != j ==> ws1.prev@[i] == ws0.prev@[i],
        ws1.target@ == ws0.target@,
        link_ok(grid, ws1, starts, sig, j),
    ensures
        search_inv(grid, ws1, heap, starts, sig),
        ws1.dists() == ws0.dists().update(j, d as int),
        ws1.potential() == ws0.potential() - ws0.dist_of(j) + d,
{
    assert forall|i: int| 0 <= i < ws1.size() && #[trigger] ws1.live(i) implies link_ok(
        grid,
        ws1,
        starts,
        sig,
        i,
    ) by {
        if i != j {
            assert(ws0.live(i));
            assert(link_ok(grid, ws0, starts, sig, i));
            assert(ws1.dist_of(i) == ws0.dist_of(i));
            let p = ws0.prev@[i];
            if p != u32::MAX {
                assert(ws1.dist_of(p as int) <= ws0.dist_of(p as int));
            }
        }
    }
    assert forall|k: u128| #[trigger] heap.keys().count(k) > 0 implies entry_ok(ws1, k) by {
        assert(entry_ok(ws0, k));
        let s = key_state(k);
        let i = ws0.index_of(s);
        lemma_state_index(ws0, s);
        assert(ws1.dist_of(i) <= ws0.dist_of(i));
    }
    assert(ws1.dists() =~= ws0.dists().update(j, d as int));
    lemma_sum_update(ws0.dists(), j, d as int);
}

/// The eight king's moves on a layer.
spec fn dir(k: int) -> (i32, i32) {
    if k == 0 {
        (1i32, 0i32)
    } else if k == 1 {
        (-1i32, 0i32)
    } else if k == 2 {
        (0i32, 1i32)
    } else if k == 3 {
        (0i32, -1i32)
    } else if k == 4 {
        (1i32, 1i32)
    } else if k == 5 {
        (1i32, -1i32)
    } else if k == 6 {
        (-1i32, 1i32)
    } else {
        (-1i32, -1i32)
    }
}

proof fn lemma_dir_cover(dx: int, dy: int)
    requires
        -1 <= dx <= 1,
        -1 <= dy <= 1,
        dx != 0 || dy != 0,
    ensures
        exists|q: int| 0 <= q < 8 && dir(q).0 == dx && dir(q).1 == dy,
{
    if dx == 1 && dy == 0 {
        assert(dir(0).0 == dx && dir(0).1 == dy);
    } else if dx == -1 && dy == 0 {
        assert(dir(1).0 == dx && dir(1).1 == dy);
    } else if dx == 0 && dy == 1 {
        assert(dir(2).0 == dx && dir(2).1 == dy);
    } else if dx == 0 && dy == -1 {
        assert(dir(3).0 == dx && dir(3).1 == dy);
    } else if dx == 1 && dy == 1 {
        assert(dir(4).0 == dx && dir(4).1 == dy);
    } else if dx == 1 && dy == -1 {
        assert(dir(5).0 == dx && dir(5).1 == dy);
    } else if dx == -1 && dy == 1 {
        assert(dir(6).0 == dx && dir(6).1 == dy);
    } else {
        assert(dir(7).0 == dx && dir(7).1 == dy);
    }
}

fn dir_at(k: usize) -> (r: (i32, i32))
    requires
        k < 8,
    ensures
        r == dir(k as int),
{
    if k == 0 {
        (1, 0)
    } else if k == 1 {
        (-1, 0)
    } else if k == 2 {
        (0, 1)
    } else if k == 3 {
        (0, -1)
    } else if k == 4 {
        (1, 1)
    } else if k == 5 {
        (1, -1)
    } else if k == 6 {
        (-1, 1)
    } else {
        (-1, -1)
    }
}

/// The cost of a move: the via cost for a change of layer, 14 for a
/// diagonal step, 10 for a straight one.
spec fn move_cost(a: State, b: State, vc: u32) -> int {
    if a.layer != b.layer {
        vc as int
    } else if a.gx != b.gx && a.gy != b.gy {
        14
    } else {
        10
    }
}

/// The largest cost of one move.
spec fn cost_cap(vc: u32) -> int {
    if vc < 14 {
        14
    } else {
        vc as int
    }
}

/// No cost of a search over `size` cells can overflow: a cost of one move
/// per cell, plus one more, plus the largest estimate, fits in a `u32`.
spec fn search_fits(size: int, vc: u32) -> bool {
    (size + 1) * cost_cap(vc) + 0x200_0000 <= u32::MAX
}

/// Cell `n`, where it can be entered, is reached no dearer than through
/// cell `i`.
spec fn reached_from(grid: &Grid, ws: &BfsWorkspace, vc: u32, i: int, n: State) -> bool {
    ws.holds(n) && enterable(grid, ws, n) ==> ws.live(ws.index_of(n)) && ws.dist_of(ws.index_of(n)) <= ws.dist_of(i)
        + move_cost(ws.state_at(i), n, vc)
}

/// Cell `i` is no target and every move from it has been offered.
spec fn expanded(grid: &Grid, ws: &BfsWorkspace, sig: Seq<usize>, vc: u32, i: int) -> bool {
    &&& !ws.target@[i]
    &&& forall|n: State| #[trigger] step_ok(ws.state_at(i), n, sig) ==> reached_from(grid, ws, vc, i, n)
}

/// Cell `i` has a heap entry at its current cost.
spec fn has_key(ws: &BfsWorkspace, heap: &MinHeap, i: int) -> bool {
    exists|k: u128|
        #[trigger] heap.keys().count(k) > 0 && ws.holds(key_state(k)) && ws.index_of(key_state(k)) == i && key_g(k)
            == ws.dist_of(i)
}

/// Every reached cell but `x` is queued at its cost or expanded.
spec fn closed_but(grid: &Grid, ws: &BfsWorkspace, heap: &MinHeap, sig: Seq<usize>, vc: u32, x: int) -> bool {
    forall|i: int|
        0 <= i < ws.size() && #[trigger] ws.live(i) && i != x ==> has_key(ws, heap, i) || expanded(grid, ws, sig, vc, i)
}

spec fn live_set(ws: &BfsWorkspace) -> Set<int> {
    Set::new(|i: int| 0 <= i < ws.size() && ws.live(i))
}

/// Each reached cost is at most one dearest move per reached cell.
spec fn dist_bounded(ws: &BfsWorkspace, vc: u32) -> bool {
    forall|i: int| 0 <= i < ws.size() && #[trigger] ws.live(i) ==> ws.dist@[i] <= live_set(ws).len() * cost_cap(vc)
}

/// Every start cell is reached.
spec fn starts_live(ws: &BfsWorkspace, starts: Seq<(i32, i32, usize)>) -> bool {
    forall|k: int|
        0 <= k < starts.len() ==> #[trigger] ws.live(ws.at(starts[k].0 as int, starts[k].1 as int, starts[k].2 as int))
}

proof fn lemma_live_len(ws: &BfsWorkspace)
    requires
        ws.wf(),
    ensures
        live_set(ws).finite(),
        live_set(ws).len() <= ws.size(),
{
    assert(ws.size() >= 0) by (nonlinear_arith)
        requires
            1 <= ws.width,
            1 <= ws.height,
            1 <= ws.num_layers,
    ;
    vstd::set_lib::lemma_int_range(0, ws.size());
    assert(live_set(ws).subset_of(vstd::set_lib::set_int_range(0, ws.size())));
    vstd::set_lib::lemma_len_subset(live_set(ws), vstd::set_lib::set_int_range(0, ws.size()));
}

/// Setting cell `j` adds it to the reached cells.
proof fn lemma_live_insert(ws0: &BfsWorkspace, ws1: &BfsWorkspace, j: int)
    requires
        ws0.wf(),
        ws1.wf(),
        ws1.same_shape(*ws0),
        ws1.current_gen == ws0.current_gen,
        0 <= j < ws0.size(),
        ws1.generation@ == ws0.generation@.update(j, ws0.current_gen),
    ensures
        live_set(ws1) == live_set(ws0).insert(j),
        ws0.live(j) ==> live_set(ws1).len() == live_set(ws0).len(),
        !ws0.live(j) ==> live_set(ws1).len() == live_set(ws0).len() + 1,
        forall|i: int| 0 <= i < ws0.size() && i != j ==> ws1.live(i) == ws0.live(i),
        ws1.live(j),
{
    assert(live_set(ws1) =~= live_set(ws0).insert(j));
    lemma_live_len(ws0);
}

proof fn lemma_octile_small(dx: int, dy: int)
    requires
        -0x11_0000 <= dx <= 0x11_0000,
        -0x11_0000 <= dy <= 0x11_0000,
    ensures
        0 <= octile(dx, dy) <= 0x200_0000,
{
}

/// Whether a move of `cost` from a cell reached at `g` lowers the cost of
/// `ns`: the new cost, and it plus the estimate, fit in a `u32`, and the new
/// cost is below what `ns` has.
spec fn relax_lowers(ws: &BfsWorkspace, g: u32, cost: u32, ns: State, tcx: i64, tcy: i64) -> bool {
    let new_g = g + cost;
    &&& new_g <= u32::MAX
    &&& new_g < ws.dist_of(ws.index_of(ns))
    &&& new_g + octile(ns.gx - tcx, ns.gy - tcy) <= u32::MAX
}

/// Offers `ns` the cost of reaching it from `cur` by a move of `cost`; when
/// that is cheaper than what `ns` has, records it and queues `ns`.
fn relax(
    grid: &Grid,
    ws: &mut BfsWorkspace,
    heap: &mut MinHeap,
    cur_idx: usize,
    cur: State,
    g_cost: u32,
    ns: State,
    cost: u32,
    tcx: i64,
    tcy: i64,
    Ghost(starts): Ghost<Seq<(i32, i32, usize)>>,
    Ghost(sig): Ghost<Seq<usize>>,
)
    requires
        search_inv(grid, old(ws), old(heap), starts, sig),
        old(ws).holds(cur),
        cur_idx == old(ws).index_of(cur),
        old(ws).live(cur_idx as int),
        old(ws).dist_of(cur_idx as int) == g_cost,
        old(ws).holds(ns),
        step_ok(cur, ns, sig),
        enterable(grid, old(ws), ns),
        cost >= 1,
        -0x10_0000 <= tcx <= 0x10_0000,
        -0x10_0000 <= tcy <= 0x10_0000,
    ensures
        search_inv(grid, final(ws), final(heap), starts, sig),
        final(ws).potential() + final(heap).keys().len() <= old(ws).potential() + old(
            heap,
        ).keys().len(),
        final(ws).same_shape(*old(ws)),
        final(ws).target@ == old(ws).target@,
        final(ws).target_indices@ == old(ws).target_indices@,
        final(ws).current_gen == old(ws).current_gen,
        final(ws).live(cur_idx as int),
        final(ws).dist_of(cur_idx as int) == g_cost,
        relax_lowers(old(ws), g_cost, cost, ns, tcx, tcy) ==> {
            let i = old(ws).index_of(ns);
            let new_g = (g_cost + cost) as u32;
            &&& final(ws).dist@ == old(ws).dist@.update(i, new_g)
            &&& final(ws).prev@ == old(ws).prev@.update(i, cur_idx as u32)
            &&& final(ws).generation@ == old(ws).generation@.update(i, old(ws).current_gen)
            &&& final(heap).keys() == old(heap).keys().insert(
                key_value((new_g + octile(ns.gx - tcx, ns.gy - tcy)) as u32, new_g, ns.gx as int, ns.gy as int, ns.layer as int) as u128,
            )
            &&& key_state(key_value((new_g + octile(ns.gx - tcx, ns.gy - tcy)) as u32, new_g, ns.gx as int, ns.gy as int, ns.layer as int) as u128) == ns
            &&& key_g(key_value((new_g + octile(ns.gx - tcx, ns.gy - tcy)) as u32, new_g, ns.gx as int, ns.gy as int, ns.layer as int) as u128) == new_g
        },
        !relax_lowers(old(ws), g_cost, cost, ns, tcx, tcy) ==> final(ws).dist@ == old(ws).dist@ && final(ws).prev@ == old(
            ws,
        ).prev@ && final(ws).generation@ == old(ws).generation@ && final(heap).keys() == old(heap).keys(),
{
    proof {
        lemma_state_index(ws, cur);
        lemma_state_index(ws, ns);
    }
    let ns_idx = ws.idx(ns.gx, ns.gy, ns.layer as usize);
    match g_cost.checked_add(cost) {
        None => {},
        Some(new_g) => {
            if new_g < ws.get_dist(ns_idx) {
                let h = heuristic(ns.gx, ns.gy, tcx, tcy);
                match new_g.checked_add(h) {
                    None => {},
                    Some(f) => {
                        let ghost ws0 = *ws;
                        proof {
                            assert(ws0.size() <= 256 * (2048 * 2048)) by (nonlinear_arith)
                                requires
                                    1 <= ws0.width <= 2048,
                                    1 <= ws0.height <= 2048,
                                    1 <= ws0.num_layers <= 256,
                            ;
                        }
                        ws.set_dist_prev(ns_idx, new_g, cur_idx as u32);
                        proof {
                            assert(ws.state_at(ns_idx as int) == ns);
                            assert(ws.state_at(cur_idx as int) == cur);
                            assert(ws.index_of(ns) == ws0.index_of(ns));
                            assert(ws.live(cur_idx as int) || cur_idx == ns_idx);
                            assert(cur_idx != ns_idx) by {
                                assert(ws0.dist_of(cur_idx as int) < new_g);
                            }
                            assert(link_ok(grid, ws, starts, sig, ns_idx as int));
                            lemma_lower_keeps(grid, &ws0, ws, heap, starts, sig, ns_idx as int, new_g);
                        }
                        let ghost h0 = *heap;
                        let k = pack(f, new_g, ns);
                        heap.push(k);
                        proof {
                            assert forall|x: u128| #[trigger] heap.keys().count(x) > 0 implies entry_ok(
                                ws,
                                x,
                            ) by {
                                if x != k {
                                    assert(h0.keys().count(x) > 0);
                                }
                            }
                        }
                    },
                }
            }
        },
    }
}


/// After one offer from the cell being expanded, every other reached cell
/// stays queued or expanded, the costs stay bounded, the starts stay
/// reached, and the offered cell is reached no dearer than through `cur`.
#[verifier::rlimit(40)]
proof fn lemma_relax_closed(
    grid: &Grid,
    ws0: &BfsWorkspace,
    ws1: &BfsWorkspace,
    h0: &MinHeap,
    h1: &MinHeap,
    starts: Seq<(i32, i32, usize)>,
    sig: Seq<usize>,
    vc: u32,
    cur_idx: int,
    cur: State,
    g: u32,
    ns: State,
    cost: u32,
    tcx: i64,
    tcy: i64,
)
    requires
        ws0.wf(),
        ws1.wf(),
        ws1.same_shape(*ws0),
        ws1.target@ == ws0.target@,
        ws1.current_gen == ws0.current_gen,
        ws0.holds(cur),
        cur_idx == ws0.index_of(cur),
        ws0.live(cur_idx),
        ws0.dist_of(cur_idx) == g,
        ws0.holds(ns),
        step_ok(cur, ns, sig),
        cost as int == move_cost(cur, ns, vc),
        vc >= 1,
        search_fits(ws0.size(), vc),
        dist_bounded(ws0, vc),
        starts_live(ws0, starts),
        forall|k: int|
            0 <= k < starts.len() ==> 0 <= (#[trigger] starts[k]).0 < ws0.width && 0 <= starts[k].1 < ws0.height
                && starts[k].2 < ws0.num_layers,
        closed_but(grid, ws0, h0, sig, vc, cur_idx),
        -0x10_0000 <= tcx <= 0x10_0000,
        -0x10_0000 <= tcy <= 0x10_0000,
        relax_lowers(ws0, g, cost, ns, tcx, tcy) ==> {
            let i = ws0.index_of(ns);
            let new_g = (g + cost) as u32;
            &&& ws1.dist@ == ws0.dist@.update(i, new_g)
            &&& ws1.generation@ == ws0.generation@.update(i, ws0.current_gen)
            &&& h1.keys() == h0.keys().insert(
                key_value((new_g + octile(ns.gx - tcx, ns.gy - tcy)) as u32, new_g, ns.gx as int, ns.gy as int, ns.layer as int) as u128,
            )
            &&& key_state(key_value((new_g + octile(ns.gx - tcx, ns.gy - tcy)) as u32, new_g, ns.gx as int, ns.gy as int, ns.layer as int) as u128) == ns
            &&& key_g(key_value((new_g + octile(ns.gx - tcx, ns.gy - tcy)) as u32, new_g, ns.gx as int, ns.gy as int, ns.layer as int) as u128) == new_g
        },
        !relax_lowers(ws0, g, cost, ns, tcx, tcy) ==> ws1.dist@ == ws0.dist@ && ws1.generation@ == ws0.generation@
            && h1.keys() == h0.keys(),
    ensures
        closed_but(grid, ws1, h1, sig, vc, cur_idx),
        dist_bounded(ws1, vc),
        starts_live(ws1, starts),
        forall|n: State| reached_from(grid, ws0, vc, cur_idx, n) ==> #[trigger] reached_from(grid, ws1, vc, cur_idx, n),
        reached_from(grid, ws1, vc, cur_idx, ns),
        ws1.live(cur_idx),
        ws1.dist_of(cur_idx) == g,
{
    lemma_state_index(ws0, cur);
    lemma_state_index(ws0, ns);
    lemma_live_len(ws0);
    let cap = cost_cap(vc);
    let l0 = live_set(ws0).len() as int;
    assert(g <= l0 * cap);
    assert(l0 * cap <= ws0.size() * cap) by (nonlinear_arith)
        requires
            l0 <= ws0.size(),
            cap >= 0,
    ;
    assert((ws0.size() + 1) * cap == ws0.size() * cap + cap) by (nonlinear_arith);
    assert(cost <= cap);
    lemma_octile_small(ns.gx - tcx, ns.gy - tcy);
    let j = ws0.index_of(ns);
    assert(forall|i: int| 0 <= i < ws0.size() ==> ws1.state_at(i) == ws0.state_at(i));
    assert(forall|t: State| ws1.index_of(t) == ws0.index_of(t) && (ws1.holds(t) == ws0.holds(t)));
    if relax_lowers(ws0, g, cost, ns, tcx, tcy) {
        let new_g = (g + cost) as u32;
        assert(j != cur_idx);
        lemma_live_insert(ws0, ws1, j);
        let l1 = live_set(ws1).len() as int;
        assert(l0 * cap <= l1 * cap) by (nonlinear_arith)
            requires
                l0 <= l1,
                cap >= 0,
        ;
        assert((l0 + 1) * cap == l0 * cap + cap) by (nonlinear_arith);
        assert forall|i: int| 0 <= i < ws1.size() && #[trigger] ws1.live(i) implies ws1.dist@[i] <= l1 * cap by {
            if i != j {
                assert(ws0.live(i));
            }
        }
        assert(forall|i: int| 0 <= i < ws0.size() && i != j ==> ws1.dist_of(i) == ws0.dist_of(i));
        assert(forall|i: int| 0 <= i < ws0.size() && ws0.live(i) ==> ws1.live(i) && ws1.dist_of(i) <= ws0.dist_of(i));
        assert forall|i: int, n: State| 0 <= i < ws0.size() && i != j && reached_from(grid, ws0, vc, i, n)
            implies reached_from(grid, ws1, vc, i, n) by {
            if ws1.holds(n) && enterable(grid, ws1, n) {
                lemma_state_index(ws0, n);
                assert(enterable(grid, ws0, n));
            }
        }
        let k = key_value((new_g + octile(ns.gx - tcx, ns.gy - tcy)) as u32, new_g, ns.gx as int, ns.gy as int, ns.layer as int) as u128;
        assert(h1.keys().count(k) > 0);
        assert forall|i: int| 0 <= i < ws1.size() && #[trigger] ws1.live(i) && i != cur_idx implies has_key(ws1, h1, i)
            || expanded(grid, ws1, sig, vc, i) by {
            if i == j {
                assert(has_key(ws1, h1, i));
            } else {
                assert(ws0.live(i));
                if has_key(ws0, h0, i) {
                    let w = choose|w: u128|
                        #[trigger] h0.keys().count(w) > 0 && ws0.holds(key_state(w)) && ws0.index_of(key_state(w)) == i
                            && key_g(w) == ws0.dist_of(i);
                    assert(h1.keys().count(w) > 0);
                    assert(has_key(ws1, h1, i));
                } else {
                    assert(expanded(grid, ws0, sig, vc, i));
                    assert forall|n: State| #[trigger] step_ok(ws1.state_at(i), n, sig) implies reached_from(grid, ws1, vc, i, n) by {
                        assert(reached_from(grid, ws0, vc, i, n));
                    }
                }
            }
        }
        assert forall|n: State| reached_from(grid, ws0, vc, cur_idx, n) implies #[trigger] reached_from(grid, ws1, vc, cur_idx, n) by {}
        assert forall|q: int| 0 <= q < starts.len() implies #[trigger] ws1.live(ws1.at(starts[q].0 as int, starts[q].1 as int, starts[q].2 as int)) by {
            assert(ws0.live(ws0.at(starts[q].0 as int, starts[q].1 as int, starts[q].2 as int)));
            assert(0 <= starts[q].0 < ws0.width);
            lemma_cell(ws0.width as int, ws0.height as int, ws0.num_layers as int, starts[q].0 as int, starts[q].1 as int, starts[q].2 as int);
        }
    } else {
        assert(live_set(ws1) =~= live_set(ws0));
        assert(forall|i: int| 0 <= i < ws0.size() ==> ws1.live(i) == ws0.live(i) && ws1.dist_of(i) == ws0.dist_of(i));
        assert forall|i: int| 0 <= i < ws1.size() && #[trigger] ws1.live(i) && i != cur_idx implies has_key(ws1, h1, i)
            || expanded(grid, ws1, sig, vc, i) by {
            assert(ws0.live(i));
            if has_key(ws0, h0, i) {
                let w = choose|w: u128|
                    #[trigger] h0.keys().count(w) > 0 && ws0.holds(key_state(w)) && ws0.index_of(key_state(w)) == i
                        && key_g(w) == ws0.dist_of(i);
                assert(has_key(ws1, h1, i));
            } else {
                assert forall|n: State| #[trigger] step_ok(ws1.state_at(i), n, sig) implies reached_from(grid, ws1, vc, i, n) by {
                    assert(reached_from(grid, ws0, vc, i, n));
                    if ws1.holds(n) {
                        lemma_state_index(ws0, n);
                    }
                }
            }
        }
        assert forall|n: State| reached_from(grid, ws0, vc, cur_idx, n) implies #[trigger] reached_from(grid, ws1, vc, cur_idx, n) by {
            if ws1.holds(n) {
                lemma_state_index(ws0, n);
            }
        }
        assert forall|q: int| 0 <= q < starts.len() implies #[trigger] ws1.live(ws1.at(starts[q].0 as int, starts[q].1 as int, starts[q].2 as int)) by {
            assert(ws0.live(ws0.at(starts[q].0 as int, starts[q].1 as int, starts[q].2 as int)));
        }
        assert(ws0.dist_of(j) <= g + cost);
    }
}

/// Taking an entry out of the heap leaves every reached cell queued or
/// expanded but the entry's cell, and that one too when the entry is stale.
proof fn lemma_pop_closed(grid: &Grid, ws: &BfsWorkspace, h0: &MinHeap, h1: &MinHeap, sig: Seq<usize>, vc: u32, k: u128)
    requires
        ws.wf(),
        closed_but(grid, ws, h0, sig, vc, -1),
        h0.keys().count(k) > 0,
        h1.keys() == h0.keys().remove(k),
        ws.holds(key_state(k)),
    ensures
        closed_but(grid, ws, h1, sig, vc, ws.index_of(key_state(k))),
        ws.dist_of(ws.index_of(key_state(k))) != key_g(k) ==> closed_but(grid, ws, h1, sig, vc, -1),
{
    broadcast use vstd::multiset::group_multiset_axioms;
    let x = ws.index_of(key_state(k));
    assert forall|i: int| 0 <= i < ws.size() && #[trigger] ws.live(i) && i != x implies has_key(ws, h1, i) || expanded(grid, ws, sig, vc, i) by {
        assert(i != -1);
        if has_key(ws, h0, i) {
            let w = choose|w: u128|
                #[trigger] h0.keys().count(w) > 0 && ws.holds(key_state(w)) && ws.index_of(key_state(w)) == i && key_g(w)
                    == ws.dist_of(i);
            assert(w != k);
            assert(h1.keys().count(w) > 0);
        }
    }
    if ws.dist_of(x) != key_g(k) {
        assert forall|i: int| 0 <= i < ws.size() && #[trigger] ws.live(i) && i != -1 implies has_key(ws, h1, i) || expanded(grid, ws, sig, vc, i) by {
            if has_key(ws, h0, i) {
                let w = choose|w: u128|
                    #[trigger] h0.keys().count(w) > 0 && ws.holds(key_state(w)) && ws.index_of(key_state(w)) == i && key_g(w)
                        == ws.dist_of(i);
                assert(w != k);
                assert(h1.keys().count(w) > 0);
            }
        }
    }
}

proof fn lemma_path_live(grid: &Grid, ws: &BfsWorkspace, starts: Seq<(i32, i32, usize)>, sig: Seq<usize>, vc: u32, p: Seq<State>, i: int)
    requires
        ws.wf(),
        forall|j: int| 0 <= j < ws.size() && #[trigger] ws.live(j) ==> expanded(grid, ws, sig, vc, j),
        starts_live(ws, starts),
        valid_path(grid, ws, starts, sig, p),
        0 <= i < p.len(),
    ensures
        ws.live(ws.index_of(p[i])),
    decreases i,
{
    lemma_state_index(ws, p[i]);
    if i == 0 {
        let q = choose|q: int| 0 <= q < starts.len() && starts[q] == (p[0].gx, p[0].gy, p[0].layer as usize);
        assert(starts[q] == (p[0].gx, p[0].gy, p[0].layer as usize));
        assert(ws.live(ws.at(starts[q].0 as int, starts[q].1 as int, starts[q].2 as int)));
    } else {
        lemma_path_live(grid, ws, starts, sig, vc, p, i - 1);
        lemma_state_index(ws, p[i - 1]);
        let j = ws.index_of(p[i - 1]);
        assert(expanded(grid, ws, sig, vc, j));
        assert(step_ok(p[i - 1], p[i], sig));
        assert(step_ok(ws.state_at(j), p[i], sig));
        assert(reached_from(grid, ws, vc, j, p[i]));
        assert(ws.holds(p[i]));
    }
}

/// With every reached cell expanded and the starts reached, no path leads
/// from a start to a target.
proof fn lemma_no_path(grid: &Grid, ws: &BfsWorkspace, starts: Seq<(i32, i32, usize)>, sig: Seq<usize>, vc: u32, p: Seq<State>)
    requires
        ws.wf(),
        forall|j: int| 0 <= j < ws.size() && #[trigger] ws.live(j) ==> expanded(grid, ws, sig, vc, j),
        starts_live(ws, starts),
    ensures
        !valid_path(grid, ws, starts, sig, p),
{
    if valid_path(grid, ws, starts, sig, p) {
        lemma_path_live(grid, ws, starts, sig, vc, p, p.len() - 1);
        lemma_state_index(ws, p.last());
        assert(expanded(grid, ws, sig, vc, ws.index_of(p.last())));
    }
}

/// Follows the links back from target cell `cur` to a start cell, and gives
/// the cells from that start cell to `cur`.
#[verifier::rlimit(50)]
fn backtrack(
    grid: &Grid,
    ws: &BfsWorkspace,
    heap: &MinHeap,
    cur: State,
    cur_idx: usize,
    Ghost(starts): Ghost<Seq<(i32, i32, usize)>>,
    Ghost(sig): Ghost<Seq<usize>>,
) -> (p: Vec<State>)
    requires
        search_inv(grid, ws, heap, starts, sig),
        ws.holds(cur),
        cur_idx == ws.index_of(cur),
        ws.live(cur_idx as int),
        ws.target@[cur_idx as int],
    ensures
        valid_path(grid, ws, starts, sig, p@),
{
    proof {
        lemma_state_index(ws, cur);
    }
    let mut rev: Vec<State> = Vec::new();
    rev.push(cur);
    let mut idx = cur_idx;
    while ws.get_prev(idx) != u32::MAX
        invariant
            search_inv(grid, ws, heap, starts, sig),
            idx < ws.size(),
            ws.live(idx as int),
            rev@.len() >= 1,
            rev@[0] == cur,
            rev@.last() == ws.state_at(idx as int),
            forall|j: int| 0 <= j < rev@.len() ==> ws.holds(#[trigger] rev@[j]),
            forall|j: int|
                0 <= j < rev@.len() - 1 ==> step_ok(rev@[j + 1], #[trigger] rev@[j], sig)
                    && enterable(grid, ws, rev@[j]),
        decreases ws.dist_of(idx as int),
    {
        let p = ws.get_prev(idx);
        proof {
            assert(link_ok(grid, ws, starts, sig, idx as int));
        }
        let s = ws.decode_index(p as usize);
        proof {
            lemma_state_index(ws, s);
        }
        let ghost old_rev = rev@;
        rev.push(s);
        proof {
            assert forall|j: int| 0 <= j < rev@.len() - 1 implies step_ok(
                rev@[j + 1],
                #[trigger] rev@[j],
                sig,
            ) && enterable(grid, ws, rev@[j]) by {
                if j < old_rev.len() - 1 {
                    assert(rev@[j] == old_rev[j] && rev@[j + 1] == old_rev[j + 1]);
                }
            }
        }
        idx = p as usize;
    }
    proof {
        assert(link_ok(grid, ws, starts, sig, idx as int));
    }
    let n = rev.len();
    let mut path: Vec<State> = Vec::new();
    let mut j = n;
    while j > 0
        invariant
            j <= n,
            n == rev@.len(),
            path@.len() == n - j,
            forall|t: int| 0 <= t < n - j ==> #[trigger] path@[t] == rev@[n - 1 - t],
        decreases j,
    {
        j = j - 1;
        path.push(rev[j]);
    }
    proof {
        let p = path@;
        assert(p[0] == rev@[n - 1]);
        assert(p.last() == rev@[0]);
        assert forall|i: int| 0 <= i < p.len() implies #[trigger] ws.holds(p[i]) by {
            assert(p[i] == rev@[n - 1 - i]);
        }
        assert forall|i: int| 1 <= i < p.len() implies step_ok(p[i - 1], #[trigger] p[i], sig)
            && enterable(grid, ws, p[i]) by {
            let k = n - 1 - i;
            assert(p[i] == rev@[k]);
            assert(p[i - 1] == rev@[k + 1]);
        }
    }
    path
}

/// A* search from the start cells to any target cell of `ws`, over moves
/// onto free or target cells: king's steps (10 straight, 14 diagonal) and
/// changes onto a signal layer (`via_cost`). Entries are taken cheapest
/// estimate first, ties broken by cost so far and then by cell. When no cost
/// of the search can overflow (see [`search_fits`]), it finds a path
/// whenever one exists.
fn bfs(
    grid: &Grid,
    start_cells: &Vec<(i32, i32, usize)>,
    target_center: (i64, i64),
    signal_layers: &Vec<usize>,
    ws: &mut BfsWorkspace,
    heap: &mut MinHeap,
    via_cost: u32,
) -> (r: Option<Vec<State>>)
    requires
        grid.wf(),
        old(ws).wf(),
        old(heap).wf(),
        grid.width == old(ws).width && grid.height == old(ws).height && grid.num_layers == old(
            ws,
        ).num_layers,
        forall|i: int| 0 <= i < old(ws).size() ==> !old(ws).live(i),
        forall|k: int|
            0 <= k < start_cells@.len() ==> 0 <= (#[trigger] start_cells@[k]).0 < grid.width && 0
                <= start_cells@[k].1 < grid.height && start_cells@[k].2 < grid.num_layers,
        forall|k: int| 0 <= k < signal_layers@.len() ==> #[trigger] signal_layers@[k] < grid.num_layers,
        via_cost >= 1,
        -0x10_0000 <= target_center.0 <= 0x10_0000,
        -0x10_0000 <= target_center.1 <= 0x10_0000,
    ensures
        final(ws).wf(),
        final(heap).wf(),
        final(ws).same_shape(*old(ws)),
        final(ws).target@ == old(ws).target@,
        final(ws).target_indices@ == old(ws).target_indices@,
        start_cells@.len() == 0 || old(ws).target_indices@.len() == 0 ==> r is None && *final(ws) == *old(ws)
            && *final(heap) == *old(heap),
        match r {
            Some(p) => valid_path(grid, final(ws), start_cells@, signal_layers@, p@),
            None => true,
        },
        search_fits(old(ws).size(), via_cost) && (exists|p: Seq<State>| #[trigger] valid_path(grid, old(ws), start_cells@, signal_layers@, p))
            ==> r is Some,
{
    let ghost starts = start_cells@;
    let ghost sig = signal_layers@;
    let ghost ws0 = *ws;
    let ghost fits = search_fits(ws0.size(), via_cost);
    if start_cells.len() == 0 || ws.target_indices.len() == 0 {
        proof {
            assert forall|p: Seq<State>| !#[trigger] valid_path(grid, old(ws), start_cells@, signal_layers@, p) by {
                if valid_path(grid, old(ws), start_cells@, signal_layers@, p) {
                    assert(is_start(starts, p[0]));
                    lemma_state_index(ws, p.last());
                    assert(ws.target@[ws.index_of(p.last())]);
                }
            }
        }
        return None;
    }
    heap.clear();
    let tcx = target_center.0;
    let tcy = target_center.1;
    let mut k: usize = 0;
    while k < start_cells.len()
        invariant
            grid.wf(),
            ws.wf(),
            heap.wf(),
            ws0 == *old(ws),
            ws.same_shape(ws0),
            ws.target@ == ws0.target@,
            ws.target_indices@ == ws0.target_indices@,
            grid.width == ws.width && grid.height == ws.height && grid.num_layers == ws.num_layers,
            starts == start_cells@,
            k <= start_cells@.len(),
            forall|j: int|
                0 <= j < start_cells@.len() ==> 0 <= (#[trigger] start_cells@[j]).0 < grid.width
                    && 0 <= start_cells@[j].1 < grid.height && start_cells@[j].2 < grid.num_layers,
            -0x10_0000 <= tcx <= 0x10_0000,
            -0x10_0000 <= tcy <= 0x10_0000,
            forall|i: int|
                0 <= i < ws.size() && #[trigger] ws.live(i) ==> ws.prev@[i] == u32::MAX
                    && ws.dist@[i] == 0 && is_start(starts, ws.state_at(i)),
            forall|x: u128| #[trigger] heap.keys().count(x) > 0 ==> entry_ok(ws, x),
            forall|i: int| 0 <= i < ws.size() && #[trigger] ws.live(i) ==> has_key(ws, heap, i),
            forall|q: int| 0 <= q < k ==> #[trigger] ws.live(ws.at(starts[q].0 as int, starts[q].1 as int, starts[q].2 as int)),
        decreases start_cells@.len() - k,
    {
        let (gx, gy, layer) = start_cells[k];
        let s = State { gx, gy, layer: layer as u8 };
        let idx = ws.idx(gx, gy, layer);
        let ghost w1 = *ws;
        proof {
            lemma_state_index(ws, s);
            assert(starts[k as int] == (gx, gy, layer));
        }
        ws.set_dist_prev(idx, 0, u32::MAX);
        proof {
            assert forall|i: int| 0 <= i < ws.size() && #[trigger] ws.live(i) implies ws.prev@[i]
                == u32::MAX && ws.dist@[i] == 0 && is_start(starts, ws.state_at(i)) by {
                if i != idx {
                    assert(w1.live(i));
                } else {
                    assert(ws.state_at(i) == s);
                    assert(starts.contains((s.gx, s.gy, s.layer as usize)));
                }
            }
            assert forall|x: u128| #[trigger] heap.keys().count(x) > 0 implies entry_ok(ws, x) by {
                assert(entry_ok(&w1, x));
                lemma_state_index(ws, key_state(x));
            }
        }
        let h = heuristic(gx, gy, tcx, tcy);
        let ghost h0 = *heap;
        let key = pack(h, 0, s);
        heap.push(key);
        proof {
            assert forall|x: u128| #[trigger] heap.keys().count(x) > 0 implies entry_ok(ws, x) by {
                if x != key {
                    assert(h0.keys().count(x) > 0);
                }
            }
            assert(heap.keys().count(key) > 0);
            assert forall|i: int| 0 <= i < ws.size() && #[trigger] ws.live(i) implies has_key(ws, heap, i) by {
                if i == idx {
                    assert(ws.index_of(key_state(key)) == i);
                } else {
                    assert(w1.live(i));
                    assert(has_key(&w1, &h0, i));
                    let w = choose|w: u128|
                        #[trigger] h0.keys().count(w) > 0 && w1.holds(key_state(w)) && w1.index_of(key_state(w)) == i
                            && key_g(w) == w1.dist_of(i);
                    assert(heap.keys().count(w) > 0);
                    assert(ws.dist_of(i) == w1.dist_of(i));
                }
            }
            assert forall|q: int| 0 <= q < k + 1 implies #[trigger] ws.live(ws.at(starts[q].0 as int, starts[q].1 as int, starts[q].2 as int)) by {
                lemma_cell(ws.width as int, ws.height as int, ws.num_layers as int, starts[q].0 as int, starts[q].1 as int, starts[q].2 as int);
                if q < k {
                    assert(w1.live(w1.at(starts[q].0 as int, starts[q].1 as int, starts[q].2 as int)));
                } else {
                    assert(ws.at(starts[q].0 as int, starts[q].1 as int, starts[q].2 as int) == idx);
                }
            }
        }
        k = k + 1;
    }
    proof {
        assert forall|i: int| 0 <= i < ws.size() && #[trigger] ws.live(i) implies link_ok(
            grid,
            ws,
            starts,
            sig,
            i,
        ) by {}
        lemma_live_len(ws);
        assert forall|i: int| 0 <= i < ws.size() && #[trigger] ws.live(i) implies ws.dist@[i] <= live_set(ws).len() * cost_cap(via_cost) by {
            assert(live_set(ws).len() * cost_cap(via_cost) >= 0) by (nonlinear_arith)
                requires
                    cost_cap(via_cost) >= 0,
            ;
        }
    }
    loop
        invariant
            search_inv(grid, ws, heap, starts, sig),
            ws0 == *old(ws),
            ws.same_shape(ws0),
            ws.target@ == ws0.target@,
            ws.target_indices@ == ws0.target_indices@,
            starts == start_cells@,
            sig == signal_layers@,
            via_cost >= 1,
            -0x10_0000 <= tcx <= 0x10_0000,
            -0x10_0000 <= tcy <= 0x10_0000,
            fits == search_fits(ws0.size(), via_cost),
            start_cells@.len() > 0 && ws0.target_indices@.len() > 0,
            fits ==> closed_but(grid, ws, heap, sig, via_cost, -1),
            fits ==> dist_bounded(ws, via_cost),
            fits ==> starts_live(ws, starts),
            forall|j: int|
                0 <= j < start_cells@.len() ==> 0 <= (#[trigger] start_cells@[j]).0 < grid.width
                    && 0 <= start_cells@[j].1 < grid.height && start_cells@[j].2 < grid.num_layers,
        decreases ws.potential() + heap.keys().len(),
    {
        let ghost p0 = ws.potential() + heap.keys().len();
        let ghost hp = *heap;
        let top = heap.pop();
        let key = match top {
            None => {
                proof {
                    broadcast use vstd::multiset::lemma_multiset_empty_len;
                    if fits {
                        assert forall|j: int| 0 <= j < ws.size() && #[trigger] ws.live(j) implies expanded(grid, ws, sig, via_cost, j) by {
                            if has_key(ws, heap, j) {
                                let w = choose|w: u128|
                                    #[trigger] heap.keys().count(w) > 0 && ws.holds(key_state(w)) && ws.index_of(key_state(w)) == j
                                        && key_g(w) == ws.dist_of(j);
                                assert(heap.keys() =~= vstd::multiset::Multiset::empty());
                            }
                        }
                        assert forall|p: Seq<State>| !#[trigger] valid_path(grid, old(ws), start_cells@, signal_layers@, p) by {
                            lemma_no_path(grid, ws, starts, sig, via_cost, p);
                            if valid_path(grid, old(ws), start_cells@, signal_layers@, p) {
                                assert forall|i: int| 0 <= i < p.len() implies #[trigger] ws.holds(p[i]) by {
                                    assert(ws0.holds(p[i]));
                                }
                                assert(valid_path(grid, ws, starts, sig, p));
                            }
                        }
                    }
                }
                return None;
            },
            Some(key) => key,
        };
        let (g_cost, cur) = unpack(key);
        proof {
            assert(entry_ok(ws, key));
            if fits {
                lemma_pop_closed(grid, ws, &hp, heap, sig, via_cost, key);
            }
            lemma_state_index(ws, cur);
            assert forall|x: u128| #[trigger] heap.keys().count(x) > 0 implies entry_ok(ws, x) by {
                assert(old(heap).keys().count(x) >= heap.keys().count(x) || true);
            }
        }
        let cur_idx = ws.idx(cur.gx, cur.gy, cur.layer as usize);
        proof {
            assert(cur_idx == ws.index_of(cur));
        }
        if ws.get_dist(cur_idx) < g_cost {
            proof {
                lemma_sum_nonneg(ws.dists());
            }
            continue ;
        }
        if ws.target[cur_idx] {
            let path = backtrack(grid, ws, heap, cur, cur_idx, Ghost(starts), Ghost(sig));
            return Some(path);
        }
        let mut d: usize = 0;
        while d < 8
            invariant
                search_inv(grid, ws, heap, starts, sig),
                ws.same_shape(ws0),
                ws.target@ == ws0.target@,
                ws.target_indices@ == ws0.target_indices@,
                ws.current_gen == ws0.current_gen || true,
                ws.potential() + heap.keys().len() < p0,
                ws.holds(cur),
                cur_idx == ws.index_of(cur),
                ws.live(cur_idx as int),
                ws.dist_of(cur_idx as int) == g_cost,
                -0x10_0000 <= tcx <= 0x10_0000,
                -0x10_0000 <= tcy <= 0x10_0000,
                d <= 8,
                via_cost >= 1,
                sig == signal_layers@,
                ws0 == *old(ws),
                fits == search_fits(ws0.size(), via_cost),
                fits ==> closed_but(grid, ws, heap, sig, via_cost, cur_idx as int),
                fits ==> dist_bounded(ws, via_cost),
                !ws.target@[cur_idx as int],
                fits ==> starts_live(ws, starts),
                forall|j: int|
                    0 <= j < start_cells@.len() ==> 0 <= (#[trigger] start_cells@[j]).0 < grid.width
                        && 0 <= start_cells@[j].1 < grid.height && start_cells@[j].2 < grid.num_layers,
                starts == start_cells@,
                fits ==> forall|n: State|
                    #[trigger] step_ok(cur, n, sig) && n.layer == cur.layer && (exists|q: int|
                        0 <= q < d && n.gx == cur.gx + dir(q).0 && n.gy == cur.gy + dir(q).1) ==> reached_from(
                        grid,
                        ws,
                        via_cost,
                        cur_idx as int,
                        n,
                    ),
            decreases 8 - d,
        {
            let (dx, dy) = dir_at(d);
            let nx = cur.gx as i64 + dx as i64;
            let ny = cur.gy as i64 + dy as i64;
            let ghost wsb = *ws;
            let ghost hb = *heap;
            let ghost nd = State { gx: nx as i32, gy: ny as i32, layer: cur.layer };
            if grid.in_bounds(nx, ny) {
                let ns = State { gx: nx as i32, gy: ny as i32, layer: cur.layer };
                let ns_idx = ws.idx(nx as i32, ny as i32, cur.layer as usize);
                if !grid.is_obstacle(cur.layer as usize, nx, ny) || ws.target[ns_idx] {
                    let cost: u32 = if dx != 0 && dy != 0 {
                        14
                    } else {
                        10
                    };
                    proof {
                        lemma_state_index(ws, cur);
                    }
                    relax(
                        grid,
                        ws,
                        heap,
                        cur_idx,
                        cur,
                        g_cost,
                        ns,
                        cost,
                        tcx,
                        tcy,
                        Ghost(starts),
                        Ghost(sig),
                    );
                    proof {
                        if fits {
                            assert(cost as int == move_cost(cur, ns, via_cost));
                            lemma_relax_closed(grid, &wsb, ws, &hb, heap, starts, sig, via_cost, cur_idx as int, cur, g_cost, ns, cost, tcx, tcy);
                        }
                    }
                }
            }
            proof {
                if fits {
                    assert forall|n: State|
                        #[trigger] step_ok(cur, n, sig) && n.layer == cur.layer && (exists|q: int|
                            0 <= q < d + 1 && n.gx == cur.gx + dir(q).0 && n.gy == cur.gy + dir(q).1) implies reached_from(
                            grid,
                            ws,
                            via_cost,
                            cur_idx as int,
                            n,
                        ) by {
                        let q = choose|q: int| 0 <= q < d + 1 && n.gx == cur.gx + dir(q).0 && n.gy == cur.gy + dir(q).1;
                        if q < d {
                            assert(reached_from(grid, &wsb, via_cost, cur_idx as int, n));
                        } else {
                            assert(n == nd);
                            if ws.holds(n) {
                                assert(grid.inside(nx as int, ny as int));
                            }
                        }
                    }
                }
            }
            d = d + 1;
        }
        proof {
            if fits {
                assert forall|n: State| #[trigger] step_ok(cur, n, sig) && n.layer == cur.layer implies reached_from(
                    grid,
                    ws,
                    via_cost,
                    cur_idx as int,
                    n,
                ) by {
                    lemma_dir_cover(n.gx - cur.gx, n.gy - cur.gy);
                    let q = choose|q: int| 0 <= q < 8 && dir(q).0 == n.gx - cur.gx && dir(q).1 == n.gy - cur.gy;
                    assert(n.gx == cur.gx + dir(q).0 && n.gy == cur.gy + dir(q).1);
                }
            }
        }
        let mut v: usize = 0;
        while v < signal_layers.len()
            invariant
                search_inv(grid, ws, heap, starts, sig),
                sig == signal_layers@,
                ws.same_shape(ws0),
                ws.target@ == ws0.target@,
                ws.target_indices@ == ws0.target_indices@,
                ws.potential() + heap.keys().len() < p0,
                ws.holds(cur),
                cur_idx == ws.index_of(cur),
                ws.live(cur_idx as int),
                ws.dist_of(cur_idx as int) == g_cost,
                via_cost >= 1,
                -0x10_0000 <= tcx <= 0x10_0000,
                -0x10_0000 <= tcy <= 0x10_0000,
                v <= signal_layers@.len(),
                ws0 == *old(ws),
                fits == search_fits(ws0.size(), via_cost),
                fits ==> closed_but(grid, ws, heap, sig, via_cost, cur_idx as int),
                fits ==> dist_bounded(ws, via_cost),
                !ws.target@[cur_idx as int],
                fits ==> starts_live(ws, starts),
                forall|j: int|
                    0 <= j < start_cells@.len() ==> 0 <= (#[trigger] start_cells@[j]).0 < grid.width
                        && 0 <= start_cells@[j].1 < grid.height && start_cells@[j].2 < grid.num_layers,
                starts == start_cells@,
                fits ==> forall|n: State|
                    #[trigger] step_ok(cur, n, sig) && n.layer == cur.layer ==> reached_from(grid, ws, via_cost, cur_idx as int, n),
                fits ==> forall|n: State|
                    #[trigger] step_ok(cur, n, sig) && n.layer != cur.layer && (exists|q: int| 0 <= q < v && sig[q] == n.layer as usize)
                        ==> reached_from(grid, ws, via_cost, cur_idx as int, n),
            decreases signal_layers@.len() - v,
        {
            let other = signal_layers[v];
            let ghost wsb = *ws;
            let ghost hb = *heap;
            if other != cur.layer as usize {
                let ns_idx = ws.idx(cur.gx, cur.gy, other);
                if !grid.is_obstacle(other, cur.gx as i64, cur.gy as i64) || ws.target[ns_idx] {
                    let ns = State { gx: cur.gx, gy: cur.gy, layer: other as u8 };
                    proof {
                        assert(sig[v as int] == other);
                        assert(sig.contains(ns.layer as usize));
                    }
                    relax(
                        grid,
                        ws,
                        heap,
                        cur_idx,
                        cur,
                        g_cost,
                        ns,
                        via_cost,
                        tcx,
                        tcy,
                        Ghost(starts),
                        Ghost(sig),
                    );
                    proof {
                        if fits {
                            lemma_state_index(&wsb, cur);
                            lemma_relax_closed(grid, &wsb, ws, &hb, heap, starts, sig, via_cost, cur_idx as int, cur, g_cost, ns, via_cost, tcx, tcy);
                        }
                    }
                }
            }
            proof {
                if fits {
                    assert forall|n: State|
                        #[trigger] step_ok(cur, n, sig) && n.layer != cur.layer && (exists|q: int| 0 <= q < v + 1 && sig[q] == n.layer as usize)
                            implies reached_from(grid, ws, via_cost, cur_idx as int, n) by {
                        let q = choose|q: int| 0 <= q < v + 1 && sig[q] == n.layer as usize;
                        if q < v {
                            assert(reached_from(grid, &wsb, via_cost, cur_idx as int, n));
                        } else {
                            assert(n.layer as usize == other);
                            assert(n == State { gx: cur.gx, gy: cur.gy, layer: other as u8 });
                            if ws.holds(n) && enterable(grid, ws, n) {
                                assert(grid.inside(cur.gx as int, cur.gy as int));
                                lemma_state_index(ws, n);
                            }
                        }
                    }
                }
            }
            v = v + 1;
        }
        proof {
            lemma_sum_nonneg(ws.dists());
            if fits {
                lemma_state_index(ws, cur);
                assert forall|n: State| #[trigger] step_ok(ws.state_at(cur_idx as int), n, sig) implies reached_from(
                    grid,
                    ws,
                    via_cost,
                    cur_idx as int,
                    n,
                ) by {
                    if n.layer != cur.layer {
                        assert(sig.contains(n.layer as usize));
                        let q = choose|q: int| 0 <= q < sig.len() && sig[q] == n.layer as usize;
                        assert(sig[q] == n.layer as usize);
                    }
                }
                assert(expanded(grid, ws, sig, via_cost, cur_idx as int));
            }
        }
    }
}


// ─── layers ───────────────────────────────────────────────────────────────────

/// The number of layer planes of the grid: one per design layer, at least two.
pub open spec fn layer_count(d: DesignView) -> int {
    if d.layers.len() < 2 {
        2
    } else {
        d.layers.len() as int
    }
}

/// Position of the first layer (from `i` on) named `name`.
pub open spec fn layer_named(layers: Seq<LayerView>, name: Seq<char>, i: int) -> Option<int>
    decreases layers.len() - i,
{
    if i < 0 || i >= layers.len() {
        None
    } else if layers[i].name == name {
        Some(i)
    } else {
        layer_named(layers, name, i + 1)
    }
}

/// Position of the first layer (from `i` on) with index `l`.
pub open spec fn layer_indexed(layers: Seq<LayerView>, l: usize, i: int) -> Option<int>
    decreases layers.len() - i,
{
    if i < 0 || i >= layers.len() {
        None
    } else if layers[i].index == l {
        Some(i)
    } else {
        layer_indexed(layers, l, i + 1)
    }
}

/// The plane of the layer named `name`: that layer's index, else the first
/// signal layer, else 0.
pub open spec fn layer_index_of(d: DesignView, name: Seq<char>, sig: Seq<usize>) -> usize {
    match layer_named(d.layers, name, 0) {
        Some(i) => d.layers[i].index,
        None => if sig.len() > 0 {
            sig[0]
        } else {
            0
        },
    }
}

/// The name of plane `l`: that of the layer with index `l`, else `Layer`
/// followed by `l` in decimal.
pub open spec fn layer_name_of(d: DesignView, l: usize) -> Seq<char> {
    match layer_indexed(d.layers, l, 0) {
        Some(i) => d.layers[i].name,
        None => seq!['L', 'a', 'y', 'e', 'r'] + decimal_of(l as int),
    }
}

/// The indices of the layers of type `signal`, in order.
pub open spec fn signal_layers_of(layers: Seq<LayerView>) -> Seq<usize>
    decreases layers.len(),
{
    if layers.len() == 0 {
        Seq::empty()
    } else if layers.last().layer_type == "signal"@ {
        signal_layers_of(layers.drop_last()).push(layers.last().index)
    } else {
        signal_layers_of(layers.drop_last())
    }
}

proof fn lemma_layer_named(layers: Seq<LayerView>, name: Seq<char>, i: int)
    requires
        0 <= i,
    ensures
        layer_named(layers, name, i) matches Some(k) ==> i <= k < layers.len() && layers[k].name
            == name,
    decreases layers.len() - i,
{
    if i < layers.len() {
        lemma_layer_named(layers, name, i + 1);
    }
}

proof fn lemma_layer_indexed(layers: Seq<LayerView>, l: usize, i: int)
    requires
        0 <= i,
    ensures
        layer_indexed(layers, l, i) matches Some(k) ==> i <= k < layers.len() && layers[k].index
            == l,
    decreases layers.len() - i,
{
    if i < layers.len() {
        lemma_layer_indexed(layers, l, i + 1);
    }
}

proof fn lemma_signal_layers(layers: Seq<LayerView>)
    ensures
        forall|k: int|
            0 <= k < signal_layers_of(layers).len() ==> exists|i: int|
                0 <= i < layers.len() && layers[i].index == #[trigger] signal_layers_of(layers)[k],
    decreases layers.len(),
{
    if layers.len() > 0 {
        let front = layers.drop_last();
        lemma_signal_layers(front);
        assert forall|k: int|
            0 <= k < signal_layers_of(layers).len() implies exists|i: int|
                0 <= i < layers.len() && layers[i].index == #[trigger] signal_layers_of(layers)[k] by {
            if k < signal_layers_of(front).len() {
                let i = choose|i: int| 0 <= i < front.len() && front[i].index == signal_layers_of(front)[k];
                assert(layers[i] == front[i]);
            } else {
                assert(layers[layers.len() - 1].index == signal_layers_of(layers)[k]);
            }
        }
    }
}

/// The plane of the layer named `layer_name` (see [`layer_index_of`]).
fn layer_index(design: &DsnDesign, layer_name: &str, signal_layers: &Vec<usize>) -> (r: usize)
    ensures
        r == layer_index_of(design@, layer_name@, signal_layers@),
{
    let mut i: usize = 0;
    while i < design.layers.len()
        invariant
            i <= design.layers.len(),
            design@.layers.len() == design.layers.len(),
            layer_named(design@.layers, layer_name@, 0) == layer_named(
                design@.layers,
                layer_name@,
                i as int,
            ),
        decreases design.layers.len() - i,
    {
        assert(design@.layers[i as int] == design.layers@[i as int]@);
        if str_eq(design.layers[i].name.as_str(), layer_name) {
            return design.layers[i].index;
        }
        i = i + 1;
    }
    if signal_layers.len() > 0 {
        signal_layers[0]
    } else {
        0
    }
}

/// The name of plane `l` (see [`layer_name_of`]).
fn layer_name(design: &DsnDesign, l: usize) -> (r: String)
    requires
        l < 0x1_0000_0000,
    ensures
        r@ == layer_name_of(design@, l),
{
    let mut i: usize = 0;
    while i < design.layers.len()
        invariant
            i <= design.layers.len(),
            design@.layers.len() == design.layers.len(),
            layer_indexed(design@.layers, l, 0) == layer_indexed(design@.layers, l, i as int),
        decreases design.layers.len() - i,
    {
        assert(design@.layers[i as int] == design.layers@[i as int]@);
        if design.layers[i].index == l {
            return design.layers[i].name.clone();
        }
        i = i + 1;
    }
    let mut v: Vec<char> = Vec::new();
    v.push('L');
    v.push('a');
    v.push('y');
    v.push('e');
    v.push('r');
    push_decimal(&mut v, l as i64);
    proof {
        assert(v@ =~= seq!['L', 'a', 'y', 'e', 'r'] + decimal_of(l as int));
    }
    string_from_chars(v)
}

/// The indices of the signal layers, in the design's order.
fn signal_layer_indices(design: &DsnDesign) -> (r: Vec<usize>)
    ensures
        r@ == signal_layers_of(design@.layers),
{
    let mut r: Vec<usize> = Vec::new();
    let mut i: usize = 0;
    while i < design.layers.len()
        invariant
            i <= design.layers.len(),
            design@.layers.len() == design.layers.len(),
            r@ == signal_layers_of(design@.layers.take(i as int)),
        decreases design.layers.len() - i,
    {
        let ghost front = design@.layers.take(i as int);
        proof {
            assert(design@.layers.take(i + 1).drop_last() =~= front);
            assert(design@.layers[i as int] == design.layers@[i as int]@);
            reveal_strlit("signal");
        }
        if str_eq(design.layers[i].layer_type.as_str(), "signal") {
            r.push(design.layers[i].index);
        }
        i = i + 1;
    }
    proof {
        assert(design@.layers.take(design.layers.len() as int) =~= design@.layers);
    }
    r
}

// ─── pad sizes ────────────────────────────────────────────────────────────────

pub open spec fn abs_int(v: int) -> int {
    if v < 0 {
        -v
    } else {
        v
    }
}

pub open spec fn max_int(a: int, b: int) -> int {
    if a < b {
        b
    } else {
        a
    }
}

/// The largest coordinate magnitude among `pts`, 0 when there are none.
pub open spec fn extent(pts: Seq<Point>) -> int
    decreases pts.len(),
{
    if pts.len() == 0 {
        0
    } else {
        max_int(extent(pts.drop_last()), max_int(abs_int(pts.last().x as int), abs_int(pts.last().y as int)))
    }
}

/// The obstacle radius, in cells, of one pad shape on a grid of cell size
/// `gs` with a clearance of `cc` cells.
pub open spec fn shape_radius(s: PadShapeView, gs: int, cc: int) -> int {
    match s {
        PadShapeView::Circle { diameter, .. } => trunc_div(trunc_div(diameter as int, 2), gs) + cc,
        PadShapeView::Rect { x1, y1, x2, y2, .. } => max_int(abs_int(x2 - x1), abs_int(y2 - y1)) / 2
            / gs + cc,
        PadShapeView::Oval { width, height, .. } => trunc_div(
            trunc_div(max_int(width as int, height as int), 2),
            gs,
        ) + cc,
        PadShapeView::Path { width, .. } => trunc_div(trunc_div(width as int, 2), gs) + cc,
        PadShapeView::Polygon { points, .. } => extent(points) / gs + cc,
    }
}

/// The obstacle radius of a padstack: the largest of its shapes', or
/// `cc + 1` when it has none.
pub open spec fn pad_radius_of(shapes: Seq<PadShapeView>, gs: int, cc: int) -> int
    decreases shapes.len(),
{
    if shapes.len() == 0 {
        cc + 1
    } else if shapes.len() == 1 {
        shape_radius(shapes[0], gs, cc)
    } else {
        max_int(pad_radius_of(shapes.drop_last(), gs, cc), shape_radius(shapes.last(), gs, cc))
    }
}

pub open spec fn points_in_range(pts: Seq<Point>) -> bool {
    forall|k: int| 0 <= k < pts.len() ==> coord_ok((#[trigger] pts[k]).x) && coord_ok(pts[k].y)
}

pub open spec fn shape_in_range(s: PadShapeView) -> bool {
    match s {
        PadShapeView::Circle { diameter, .. } => coord_ok(diameter),
        PadShapeView::Rect { x1, y1, x2, y2, .. } => coord_ok(x1) && coord_ok(y1) && coord_ok(x2)
            && coord_ok(y2),
        PadShapeView::Oval { width, height, .. } => coord_ok(width) && coord_ok(height),
        PadShapeView::Polygon { points, .. } => points_in_range(points),
        PadShapeView::Path { width, .. } => coord_ok(width),
    }
}

proof fn lemma_extent(pts: Seq<Point>)
    requires
        points_in_range(pts),
    ensures
        0 <= extent(pts) <= coord_limit(),
    decreases pts.len(),
{
    if pts.len() > 0 {
        lemma_extent(pts.drop_last());
        assert(coord_ok(pts[pts.len() - 1].x));
    }
}

fn extent_of(pts: &Vec<Point>) -> (r: i64)
    requires
        points_in_range(pts@),
    ensures
        r == extent(pts@),
        0 <= r <= coord_limit(),
{
    let mut m: i64 = 0;
    let mut i: usize = 0;
    while i < pts.len()
        invariant
            i <= pts.len(),
            points_in_range(pts@),
            m == extent(pts@.take(i as int)),
            0 <= m <= coord_limit(),
        decreases pts.len() - i,
    {
        proof {
            assert(pts@.take(i + 1).drop_last() =~= pts@.take(i as int));
            assert(coord_ok(pts@[i as int].x));
        }
        let p = pts[i];
        let ax = if p.x < 0 { -p.x } else { p.x };
        let ay = if p.y < 0 { -p.y } else { p.y };
        let e = if ax < ay { ay } else { ax };
        if m < e {
            m = e;
        }
        i = i + 1;
    }
    proof {
        assert(pts@.take(pts@.len() as int) =~= pts@);
    }
    m
}

fn shape_radius_of(s: &PadShape, gs: i64, cc: i64) -> (r: i64)
    requires
        shape_in_range(s@),
        1 <= gs,
        0 <= cc <= coord_limit(),
    ensures
        r == shape_radius(s@, gs as int, cc as int),
        -coord_limit() <= r <= 2 * coord_limit(),
{
    match s {
        PadShape::Circle { diameter, .. } => *diameter / 2 / gs + cc,
        PadShape::Rect { x1, y1, x2, y2, .. } => {
            let w = if *x2 - *x1 < 0 { *x1 - *x2 } else { *x2 - *x1 };
            let h = if *y2 - *y1 < 0 { *y1 - *y2 } else { *y2 - *y1 };
            let m = if w < h { h } else { w };
            assert(m / 2 / (gs as int) <= m) by (nonlinear_arith)
                requires
                    m >= 0,
                    gs >= 1,
            ;
            m / 2 / gs + cc
        },
        PadShape::Oval { width, height, .. } => {
            let m = if *width < *height { *height } else { *width };
            m / 2 / gs + cc
        },
        PadShape::Path { width, .. } => *width / 2 / gs + cc,
        PadShape::Polygon { layer, points } => {
            proof {
                assert(s@ == PadShapeView::Polygon { layer: layer@, points: points@ });
            }
            let e = extent_of(points);
            assert(e / gs <= e) by (nonlinear_arith)
                requires
                    e >= 0,
                    gs >= 1,
            ;
            e / gs + cc
        },
    }
}

/// The obstacle radius of a padstack's shapes (see [`pad_radius_of`]).
fn max_pad_radius(shapes: &Vec<PadShape>, grid_size: i64, clearance_cells: i64) -> (r: i64)
    requires
        forall|j: int| 0 <= j < shapes@.len() ==> shape_in_range(#[trigger] shapes@[j]@),
        1 <= grid_size,
        0 <= clearance_cells <= coord_limit(),
    ensures
        r == pad_radius_of(shapes@.map_values(|s: PadShape| s@), grid_size as int, clearance_cells as int),
        -coord_limit() <= r <= 2 * coord_limit() + 1,
{
    let ghost sv = shapes@.map_values(|s: PadShape| s@);
    if shapes.len() == 0 {
        return clearance_cells + 1;
    }
    let mut m = shape_radius_of(&shapes[0], grid_size, clearance_cells);
    let mut i: usize = 1;
    proof {
        assert(sv.take(1).len() == 1);
    }
    while i < shapes.len()
        invariant
            1 <= i <= shapes.len(),
            sv == shapes@.map_values(|s: PadShape| s@),
            forall|j: int| 0 <= j < shapes@.len() ==> shape_in_range(#[trigger] shapes@[j]@),
            1 <= grid_size,
            0 <= clearance_cells <= coord_limit(),
            m == pad_radius_of(sv.take(i as int), grid_size as int, clearance_cells as int),
            -coord_limit() <= m <= 2 * coord_limit(),
        decreases shapes.len() - i,
    {
        proof {
            assert(sv.take(i + 1).drop_last() =~= sv.take(i as int));
            assert(sv[i as int] == shapes@[i as int]@);
        }
        let r = shape_radius_of(&shapes[i], grid_size, clearance_cells);
        if m <= r {
            m = r;
        }
        i = i + 1;
    }
    proof {
        assert(sv.take(shapes@.len() as int) =~= sv);
    }
    m
}


// ─── design limits ────────────────────────────────────────────────────────────

pub open spec fn wire_in_range(w: WireView) -> bool {
    coord_ok(w.width) && points_in_range(w.points)
}

/// The box `b` (min x, min y, max x, max y) grown to hold the pad `q`, if any.
pub open spec fn widen(b: (int, int, int, int), q: Option<(i64, i64, Seq<char>)>) -> (int, int, int, int) {
    match q {
        Some((x, y, _)) => (
            if x < b.0 { x as int } else { b.0 },
            if y < b.1 { y as int } else { b.1 },
            if x > b.2 { x as int } else { b.2 },
            if y > b.3 { y as int } else { b.3 },
        ),
        None => b,
    }
}

pub open spec fn pins_bounds(
    d: DesignView,
    o: Seq<Seq<Seq<(i64, i64)>>>,
    pins: Seq<PinRefView>,
    b: (int, int, int, int),
) -> (int, int, int, int)
    decreases pins.len(),
{
    if pins.len() == 0 {
        b
    } else {
        widen(
            pins_bounds(d, o, pins.drop_last(), b),
            pad_position(d, o, pins.last().component, pins.last().pin),
        )
    }
}

/// The box of the board outline and of every pad that the nets name.
pub open spec fn nets_bounds(d: DesignView, o: Seq<Seq<Seq<(i64, i64)>>>, nets: Seq<NetView>) -> (
    int,
    int,
    int,
    int,
)
    decreases nets.len(),
{
    if nets.len() == 0 {
        (
            d.boundary.min_x as int,
            d.boundary.min_y as int,
            d.boundary.max_x as int,
            d.boundary.max_y as int,
        )
    } else {
        pins_bounds(d, o, nets.last().pins, nets_bounds(d, o, nets.drop_last()))
    }
}

pub open spec fn trace_width_of(d: DesignView) -> int {
    max_int(d.rules.trace_width as int, 1)
}

pub open spec fn clearance_of(d: DesignView) -> int {
    max_int(d.rules.clearance as int, 1)
}

/// The routed area: the box of board and pads, with a margin of twice the
/// clearance.
pub open spec fn board_box(d: DesignView, o: Seq<Seq<Seq<(i64, i64)>>>) -> (int, int, int, int) {
    let b = nets_bounds(d, o, d.nets);
    let m = 2 * clearance_of(d);
    (b.0 - m, b.1 - m, b.2 + m, b.3 + m)
}

pub open spec fn board_w(d: DesignView, o: Seq<Seq<Seq<(i64, i64)>>>) -> int {
    max_int(board_box(d, o).2 - board_box(d, o).0, 1)
}

pub open spec fn board_h(d: DesignView, o: Seq<Seq<Seq<(i64, i64)>>>) -> int {
    max_int(board_box(d, o).3 - board_box(d, o).1, 1)
}

/// The cell size the search for a grid size starts from.
pub open spec fn first_grid_size(d: DesignView) -> int {
    (max_int(trace_width_of(d), clearance_of(d)) + 1) / 2
}

/// One step of the grid-size search: half the size more, and at least one.
pub open spec fn size_step(gs: int) -> int {
    if gs / 2 < 1 {
        1
    } else {
        gs / 2
    }
}

/// The cell size the search reaches from `gs`: grown while the board spans
/// more than 1500 cells across or down.
pub open spec fn grown_size(bw: int, bh: int, gs: int) -> int
    decreases bw + bh - gs,
{
    if 1 <= gs && gs + size_step(gs) <= bw + bh && (bw / gs > 1500 || bh / gs > 1500) {
        grown_size(bw, bh, gs + size_step(gs))
    } else {
        gs
    }
}

/// The cell size of the routing grid.
pub open spec fn grid_size_of(d: DesignView, o: Seq<Seq<Seq<(i64, i64)>>>) -> int {
    grown_size(board_w(d, o), board_h(d, o), first_grid_size(d))
}

/// The routing grid's frame: the lower corner of the board box, the cell
/// size, and the count of cells across and down that cover the box.
pub open spec fn routing_frame(d: DesignView, o: Seq<Seq<Seq<(i64, i64)>>>) -> (int, int, int, int, int) {
    let gs = grid_size_of(d, o);
    (board_box(d, o).0, board_box(d, o).1, gs, (board_w(d, o) + gs - 1) / gs + 1, (board_h(d, o) + gs - 1) / gs + 1)
}

/// Offsets for every pin, and placements and board outline within the
/// coordinate limit.
pub open spec fn bounds_ok(d: DesignView, o: Seq<Seq<Seq<(i64, i64)>>>) -> bool {
    &&& offsets_fit(d, o)
    &&& places_in_range(d)
    &&& coord_ok(d.boundary.min_x) && coord_ok(d.boundary.min_y)
    &&& coord_ok(d.boundary.max_x) && coord_ok(d.boundary.max_y)
}

/// What the router needs of a design: offsets for every pin, coordinates and
/// sizes within the coordinate limit, and layer indices that name grid planes.
pub open spec fn routable(d: DesignView, o: Seq<Seq<Seq<(i64, i64)>>>) -> bool {
    &&& bounds_ok(d, o)
    &&& coord_ok(d.rules.trace_width) && coord_ok(d.rules.clearance)
    &&& d.layers.len() <= 256
    &&& forall|i: int| 0 <= i < d.layers.len() ==> (#[trigger] d.layers[i]).index < layer_count(d)
    &&& forall|k: int, j: int|
        0 <= k < d.padstacks.len() && 0 <= j < d.padstacks[k].shapes.len() ==> shape_in_range(
            #[trigger] d.padstacks[k].shapes[j],
        )
    &&& forall|w: int| 0 <= w < d.wiring.len() ==> wire_in_range(#[trigger] d.wiring[w])
}

proof fn lemma_signal_bound(d: DesignView)
    requires
        forall|i: int| 0 <= i < d.layers.len() ==> (#[trigger] d.layers[i]).index < layer_count(d),
    ensures
        forall|k: int|
            0 <= k < signal_layers_of(d.layers).len() ==> #[trigger] signal_layers_of(d.layers)[k]
                < layer_count(d),
{
    lemma_signal_layers(d.layers);
    assert forall|k: int|
        0 <= k < signal_layers_of(d.layers).len() implies #[trigger] signal_layers_of(d.layers)[k]
        < layer_count(d) by {
        let i = choose|i: int|
            0 <= i < d.layers.len() && d.layers[i].index == signal_layers_of(d.layers)[k];
        assert(d.layers[i].index < layer_count(d));
    }
}

proof fn lemma_layer_index_bound(d: DesignView, name: Seq<char>)
    requires
        forall|i: int| 0 <= i < d.layers.len() ==> (#[trigger] d.layers[i]).index < layer_count(d),
    ensures
        layer_index_of(d, name, signal_layers_of(d.layers)) < layer_count(d),
{
    lemma_signal_bound(d);
    lemma_layer_named(d.layers, name, 0);
    if let Some(i) = layer_named(d.layers, name, 0) {
        assert(d.layers[i].index < layer_count(d));
    }
}

// ─── marking the design's obstacles ───────────────────────────────────────────

/// The cells within distance `r` of `(cx, cy)` on each of the first `n`
/// planes of `layers`.
pub open spec fn layers_hit(layers: Seq<usize>, n: int, cx: int, cy: int, r: int) -> spec_fn(int, int, int) -> bool {
    |l: int, gx: int, gy: int|
        (exists|k: int| 0 <= k < n && k < layers.len() && #[trigger] layers[k] as int == l) && in_circle(cx, cy, r, gx, gy)
}

/// Marks a circle of radius `r` around `(gx, gy)` on each plane of `layers`.
fn mark_on(grid: &mut Grid, layers: &Vec<usize>, gx: i64, gy: i64, r: i64)
    requires
        old(grid).wf(),
        forall|k: int| 0 <= k < layers@.len() ==> #[trigger] layers@[k] < old(grid).num_layers,
        -0x100_0000_0000 <= gx <= 0x100_0000_0000,
        -0x100_0000_0000 <= gy <= 0x100_0000_0000,
        -0x40_0000_0000 <= r <= 0x40_0000_0000,
    ensures
        final(grid).wf(),
        final(grid).same_frame(*old(grid)),
        final(grid).fills(*old(grid), layers_hit(layers@, layers@.len() as int, gx as int, gy as int, r as int), true),
{
    proof {
        lemma_fills_none(*grid, layers_hit(layers@, 0, gx as int, gy as int, r as int), true);
    }
    let mut k: usize = 0;
    while k < layers.len()
        invariant
            grid.wf(),
            grid.same_frame(*old(grid)),
            k <= layers.len(),
            forall|j: int| 0 <= j < layers@.len() ==> #[trigger] layers@[j] < old(grid).num_layers,
            -0x100_0000_0000 <= gx <= 0x100_0000_0000,
            -0x100_0000_0000 <= gy <= 0x100_0000_0000,
            -0x40_0000_0000 <= r <= 0x40_0000_0000,
            grid.fills(*old(grid), layers_hit(layers@, k as int, gx as int, gy as int, r as int), true),
        decreases layers.len() - k,
    {
        let ghost g1 = *grid;
        grid.mark_circle(layers[k], gx, gy, r);
        proof {
            let h1 = layers_hit(layers@, k as int, gx as int, gy as int, r as int);
            let h2 = circle_hit(layers@[k as int] as int, gx as int, gy as int, r as int);
            let h = layers_hit(layers@, k + 1, gx as int, gy as int, r as int);
            assert forall|l: int, x: int, y: int| #[trigger] h(l, x, y) == (h1(l, x, y) || h2(l, x, y)) by {
                if h(l, x, y) {
                    let w = choose|w: int| 0 <= w < k + 1 && w < layers@.len() && #[trigger] layers@[w] as int == l;
                    if w < k {
                        assert(h1(l, x, y));
                    }
                }
                if h2(l, x, y) {
                    assert(layers@[k as int] as int == l);
                }
                if h1(l, x, y) {
                    let w = choose|w: int| 0 <= w < k && w < layers@.len() && #[trigger] layers@[w] as int == l;
                    assert(layers@[w] as int == l);
                }
            }
            lemma_fills_then(*old(grid), g1, *grid, h1, h2, h, true);
        }
        k = k + 1;
    }
}

/// Plane `l` is one of the signal layers.
pub open spec fn sig_has(sig: Seq<usize>, l: int) -> bool {
    exists|k: int| 0 <= k < sig.len() && #[trigger] sig[k] as int == l
}

/// Plane `l` is marked for shapes `t..`: the plane each names, up to a
/// `*.Cu` shape, which marks every signal layer.
pub open spec fn shape_planes_hit(d: DesignView, shapes: Seq<PadShapeView>, t: int, sig: Seq<usize>, l: int) -> bool
    decreases shapes.len() - t,
{
    if t < 0 || t >= shapes.len() {
        false
    } else if shape_layer(shapes[t]) == "*.Cu"@ {
        sig_has(sig, l)
    } else {
        l == layer_index_of(d, shape_layer(shapes[t]), sig) || shape_planes_hit(d, shapes, t + 1, sig, l)
    }
}

/// The planes a pad of padstack `ps` is marked on: those its shapes give,
/// or every signal layer where there is no padstack or it has no shape.
pub open spec fn pad_mark_planes(d: DesignView, ps: Option<usize>, sig: Seq<usize>, l: int) -> bool {
    match ps {
        None => sig_has(sig, l),
        Some(j) => if d.padstacks[j as int].shapes.len() == 0 {
            sig_has(sig, l)
        } else {
            shape_planes_hit(d, d.padstacks[j as int].shapes, 0, sig, l)
        },
    }
}

/// The cells a pad marks: within `r` of `(gx, gy)` on its planes.
pub open spec fn pad_hit(d: DesignView, ps: Option<usize>, sig: Seq<usize>, gx: int, gy: int, r: int) -> spec_fn(int, int, int) -> bool {
    |l: int, x: int, y: int| pad_mark_planes(d, ps, sig, l) && in_circle(gx, gy, r, x, y)
}

/// The planes the first `t` shapes name, none of them `*.Cu`.
spec fn prefix_planes(d: DesignView, shapes: Seq<PadShapeView>, t: int, sig: Seq<usize>, l: int) -> bool
    decreases t,
{
    if t <= 0 || t > shapes.len() {
        false
    } else {
        prefix_planes(d, shapes, t - 1, sig, l) || l == layer_index_of(d, shape_layer(shapes[t - 1]), sig)
    }
}

proof fn lemma_prefix_planes(d: DesignView, shapes: Seq<PadShapeView>, t: int, sig: Seq<usize>, l: int)
    requires
        0 <= t <= shapes.len(),
        forall|q: int| 0 <= q < t ==> shape_layer(#[trigger] shapes[q]) != "*.Cu"@,
    ensures
        shape_planes_hit(d, shapes, 0, sig, l) == (prefix_planes(d, shapes, t, sig, l) || shape_planes_hit(d, shapes, t, sig, l)),
    decreases t,
{
    if t > 0 {
        lemma_prefix_planes(d, shapes, t - 1, sig, l);
        assert(shape_layer(shapes[t - 1]) != "*.Cu"@);
    }
}

/// Marks one pad: on each layer its padstack's shapes name (every signal
/// layer for `*.Cu`), or on every signal layer where it names none.
fn mark_pad(
    grid: &mut Grid,
    design: &DsnDesign,
    padstack: Option<usize>,
    signal_layers: &Vec<usize>,
    gx: i64,
    gy: i64,
    r: i64,
)
    requires
        old(grid).wf(),
        old(grid).num_layers == layer_count(design@),
        forall|i: int|
            0 <= i < design@.layers.len() ==> (#[trigger] design@.layers[i]).index < layer_count(
                design@,
            ),
        signal_layers@ == signal_layers_of(design@.layers),
        padstack matches Some(j) ==> j < design.padstacks@.len(),
        -0x100_0000_0000 <= gx <= 0x100_0000_0000,
        -0x100_0000_0000 <= gy <= 0x100_0000_0000,
        -0x40_0000_0000 <= r <= 0x40_0000_0000,
    ensures
        final(grid).wf(),
        final(grid).same_frame(*old(grid)),
        final(grid).fills(*old(grid), pad_hit(design@, padstack, signal_layers@, gx as int, gy as int, r as int), true),
{
    proof {
        lemma_signal_bound(design@);
    }
    let ghost g0 = *grid;
    let ghost sig = signal_layers@;
    let mut marked_any = false;
    proof {
        lemma_fills_none(*grid, |l: int, x: int, y: int| false, true);
    }
    if let Some(j) = padstack {
        let shapes = &design.padstacks[j].shapes;
        let ghost sv = design@.padstacks[j as int].shapes;
        proof {
            assert(design@.padstacks[j as int] == design.padstacks@[j as int]@);
            lemma_fills_none(*grid, |l: int, x: int, y: int| prefix_planes(design@, sv, 0, sig, l) && in_circle(gx as int, gy as int, r as int, x, y), true);
        }
        let ghost mut broke = false;
        let mut t: usize = 0;
        while t < shapes.len()
            invariant_except_break
                !broke,
                grid.fills(g0, |l: int, x: int, y: int| prefix_planes(design@, sv, t as int, sig, l) && in_circle(gx as int, gy as int, r as int, x, y), true),
                forall|q: int| 0 <= q < t ==> shape_layer(#[trigger] sv[q]) != "*.Cu"@,
                marked_any == (t > 0),
            invariant
                grid.wf(),
                grid.same_frame(g0),
                g0 == *old(grid),
                grid.num_layers == layer_count(design@),
                forall|i: int|
                    0 <= i < design@.layers.len() ==> (#[trigger] design@.layers[i]).index
                        < layer_count(design@),
                forall|k: int|
                    0 <= k < signal_layers@.len() ==> #[trigger] signal_layers@[k] < layer_count(
                        design@,
                    ),
                signal_layers@ == signal_layers_of(design@.layers),
                sig == signal_layers@,
                t <= shapes.len(),
                sv == shapes@.map_values(|s: PadShape| s@),
                -0x100_0000_0000 <= gx <= 0x100_0000_0000,
                -0x100_0000_0000 <= gy <= 0x100_0000_0000,
                -0x40_0000_0000 <= r <= 0x40_0000_0000,
            ensures
                broke ==> grid.fills(g0, |l: int, x: int, y: int| shape_planes_hit(design@, sv, 0, sig, l) && in_circle(gx as int, gy as int, r as int, x, y), true),
                !broke ==> t == shapes.len() && grid.fills(g0, |l: int, x: int, y: int| prefix_planes(design@, sv, t as int, sig, l) && in_circle(gx as int, gy as int, r as int, x, y), true)
                    && forall|q: int| 0 <= q < t ==> shape_layer(#[trigger] sv[q]) != "*.Cu"@,
                marked_any == (sv.len() > 0),
            decreases shapes.len() - t,
        {
            let ghost g1 = *grid;
            let ln = shape_layer_exec(&shapes[t]);
            proof {
                assert(sv[t as int] == shapes@[t as int]@);
            }
            if str_eq(ln, "*.Cu") {
                mark_on(grid, signal_layers, gx, gy, r);
                proof {
                    let h1 = |l: int, x: int, y: int| prefix_planes(design@, sv, t as int, sig, l) && in_circle(gx as int, gy as int, r as int, x, y);
                    let h2 = layers_hit(sig, sig.len() as int, gx as int, gy as int, r as int);
                    let h = |l: int, x: int, y: int| shape_planes_hit(design@, sv, 0, sig, l) && in_circle(gx as int, gy as int, r as int, x, y);
                    assert forall|l: int, x: int, y: int| #[trigger] h(l, x, y) == (h1(l, x, y) || h2(l, x, y)) by {
                        lemma_prefix_planes(design@, sv, t as int, sig, l);
                        if sig_has(sig, l) {
                            let k = choose|k: int| 0 <= k < sig.len() && #[trigger] sig[k] as int == l;
                            assert(sig[k] as int == l);
                        }
                        if h2(l, x, y) {
                            let k = choose|k: int| 0 <= k < sig.len() as int && k < sig.len() && #[trigger] sig[k] as int == l;
                            assert(sig[k] as int == l);
                        }
                    }
                    lemma_fills_then(g0, g1, *grid, h1, h2, h, true);
                    broke = true;
                }
                marked_any = true;
                break;
            } else {
                let li = layer_index(design, ln, signal_layers);
                proof {
                    lemma_layer_index_bound(design@, ln@);
                }
                grid.mark_circle(li, gx, gy, r);
                proof {
                    let h1 = |l: int, x: int, y: int| prefix_planes(design@, sv, t as int, sig, l) && in_circle(gx as int, gy as int, r as int, x, y);
                    let h2 = circle_hit(li as int, gx as int, gy as int, r as int);
                    let h = |l: int, x: int, y: int| prefix_planes(design@, sv, t + 1, sig, l) && in_circle(gx as int, gy as int, r as int, x, y);
                    assert forall|l: int, x: int, y: int| #[trigger] h(l, x, y) == (h1(l, x, y) || h2(l, x, y)) by {
                        assert(prefix_planes(design@, sv, t + 1, sig, l) == (prefix_planes(design@, sv, t as int, sig, l)
                            || l == layer_index_of(design@, shape_layer(sv[t as int]), sig)));
                    }
                    lemma_fills_then(g0, g1, *grid, h1, h2, h, true);
                }
                marked_any = true;
            }
            t = t + 1;
        }
        proof {
            let h1 = |l: int, x: int, y: int| shape_planes_hit(design@, sv, 0, sig, l) && in_circle(gx as int, gy as int, r as int, x, y);
            if !broke {
                let h0 = |l: int, x: int, y: int| prefix_planes(design@, sv, t as int, sig, l) && in_circle(gx as int, gy as int, r as int, x, y);
                assert forall|l: int, x: int, y: int| #[trigger] h1(l, x, y) == h0(l, x, y) by {
                    lemma_prefix_planes(design@, sv, t as int, sig, l);
                }
                lemma_fills_same(g0, *grid, h0, h1, true);
            }
            let h = |l: int, x: int, y: int| (if marked_any { pad_mark_planes(design@, padstack, sig, l) } else { false }) && in_circle(gx as int, gy as int, r as int, x, y);
            assert forall|l: int, x: int, y: int| #[trigger] h(l, x, y) == h1(l, x, y) by {
                if sv.len() == 0 {
                    assert(!shape_planes_hit(design@, sv, 0, sig, l));
                }
            }
            lemma_fills_same(g0, *grid, h1, h, true);
        }
    }
    proof {
        let h = |l: int, x: int, y: int| (if marked_any { pad_mark_planes(design@, padstack, sig, l) } else { false }) && in_circle(gx as int, gy as int, r as int, x, y);
        if padstack is None {
            assert forall|l: int, x: int, y: int| #[trigger] h(l, x, y) == false by {}
            lemma_fills_same(g0, *grid, |l: int, x: int, y: int| false, h, true);
        }
        assert(grid.fills(g0, h, true));
        assert(!marked_any ==> (padstack is None || design@.padstacks[padstack->0 as int].shapes.len() == 0));
    }
    if !marked_any {
        let ghost g1 = *grid;
        mark_on(grid, signal_layers, gx, gy, r);
        proof {
            let h1 = |l: int, x: int, y: int| (if marked_any { pad_mark_planes(design@, padstack, sig, l) } else { false }) && in_circle(gx as int, gy as int, r as int, x, y);
            let h2 = layers_hit(sig, sig.len() as int, gx as int, gy as int, r as int);
            let h = pad_hit(design@, padstack, sig, gx as int, gy as int, r as int);
            assert forall|l: int, x: int, y: int| #[trigger] h(l, x, y) == (h1(l, x, y) || h2(l, x, y)) by {
                if sig_has(sig, l) {
                    let k = choose|k: int| 0 <= k < sig.len() && #[trigger] sig[k] as int == l;
                    assert(sig[k] as int == l);
                }
                if h2(l, x, y) {
                    let k = choose|k: int| 0 <= k < sig.len() as int && k < sig.len() && #[trigger] sig[k] as int == l;
                    assert(sig[k] as int == l);
                }
            }
            lemma_fills_then(g0, g1, *grid, h1, h2, h, true);
        }
    } else {
        proof {
            let h1 = |l: int, x: int, y: int| (if marked_any { pad_mark_planes(design@, padstack, sig, l) } else { false }) && in_circle(gx as int, gy as int, r as int, x, y);
            let h = pad_hit(design@, padstack, sig, gx as int, gy as int, r as int);
            assert forall|l: int, x: int, y: int| #[trigger] h(l, x, y) == h1(l, x, y) by {}
            lemma_fills_same(g0, *grid, h1, h, true);
        }
    }
}

/// Pin `k` of placement `p` of component `c` is a pad of the design: the
/// component's image exists and has that pin.
pub open spec fn pad_valid(d: DesignView, c: int, p: int, k: int) -> bool {
    &&& 0 <= c < d.components.len()
    &&& 0 <= p < d.components[c].places.len()
    &&& image_of_component(d, c) matches Some(ii) && 0 <= k < d.images[ii].pins.len()
}

/// The padstack of a pad, where it is found.
pub open spec fn pad_stack(d: DesignView, c: int, k: int) -> Option<usize> {
    match padstack_index(d.padstacks, d.images[image_of_component(d, c)->0].pins[k].padstack_name) {
        Some(j) => Some(j as usize),
        None => None,
    }
}

/// The cells pad `(c, p, k)` marks: around the cell of its position in the
/// grid `g`, with its padstack's radius (the clearance and one cell where
/// there is no padstack), on its planes.
spec fn pad_cells(d: DesignView, o: Seq<Seq<Seq<(i64, i64)>>>, g: Grid, sig: Seq<usize>, cc: int, c: int, p: int, k: int) -> spec_fn(int, int, int) -> bool {
    let place = d.components[c].places[p];
    let off = o[c][p][k];
    let ps = pad_stack(d, c, k);
    let rad = match ps {
        Some(j) => pad_radius_of(d.padstacks[j as int].shapes, g.grid_size as int, cc),
        None => cc + 1,
    };
    pad_hit(
        d,
        ps,
        sig,
        trunc_div(place.x + off.0 - g.offset_x, g.grid_size as int),
        trunc_div(place.y + off.1 - g.offset_y, g.grid_size as int),
        rad,
    )
}

/// Pad `(c, p, k)` comes before `(c2, p2, k2)` in the order the pads are marked.
pub open spec fn pad_before(c: int, p: int, k: int, c2: int, p2: int, k2: int) -> bool {
    c < c2 || (c == c2 && (p < p2 || (p == p2 && k < k2)))
}

/// The cells of the pads marked before pad `(c2, p2, k2)`.
spec fn pads_hit(d: DesignView, o: Seq<Seq<Seq<(i64, i64)>>>, g: Grid, sig: Seq<usize>, cc: int, c2: int, p2: int, k2: int) -> spec_fn(int, int, int) -> bool {
    |l: int, x: int, y: int|
        exists|c: int, p: int, k: int|
            #[trigger] pad_valid(d, c, p, k) && pad_before(c, p, k, c2, p2, k2) && pad_cells(d, o, g, sig, cc, c, p, k)(l, x, y)
}

/// Marks every pad of every placed component as an obstacle, with its
/// padstack's radius plus the clearance.
fn mark_pads(
    grid: &mut Grid,
    design: &DsnDesign,
    offsets: &PinOffsets,
    signal_layers: &Vec<usize>,
    clearance: i64,
)
    requires
        old(grid).wf(),
        routable(design@, offsets@),
        old(grid).num_layers == layer_count(design@),
        signal_layers@ == signal_layers_of(design@.layers),
        1 <= clearance <= coord_limit(),
    ensures
        final(grid).wf(),
        final(grid).same_frame(*old(grid)),
        final(grid).fills(
            *old(grid),
            pads_hit(
                design@,
                offsets@,
                *old(grid),
                signal_layers@,
                clearance_cells_of(clearance as int, old(grid).grid_size as int),
                design@.components.len() as int,
                0,
                0,
            ),
            true,
        ),
{
    let ghost g0 = *grid;
    let ghost d = design@;
    let ghost o = offsets@;
    let ghost sig = signal_layers@;
    let grid_size = grid.grid_size;
    let cc0 = clearance / grid_size;
    let clearance_cells = if cc0 < 1 { 1 } else { cc0 };
    let ghost cc = clearance_cells as int;
    proof {
        assert(cc == clearance_cells_of(clearance as int, g0.grid_size as int));
        lemma_fills_none(*grid, pads_hit(d, o, g0, sig, cc, 0, 0, 0), true);
    }
    let mut c: usize = 0;
    while c < design.components.len()
        invariant
            grid.wf(),
            grid.same_frame(*old(grid)),
            grid.grid_size == grid_size,
            routable(design@, offsets@),
            grid.num_layers == layer_count(design@),
            signal_layers@ == signal_layers_of(design@.layers),
            1 <= clearance_cells <= coord_limit(),
            c <= design.components.len(),
            design@.components.len() == design.components.len(),
            g0 == *old(grid),
            d == design@,
            o == offsets@,
            sig == signal_layers@,
            cc == clearance_cells,
            grid.fills(g0, pads_hit(d, o, g0, sig, cc, c as int, 0, 0), true),
        decreases design.components.len() - c,
    {
        let comp = &design.components[c];
        proof {
            assert(design@.components[c as int] == comp@);
        }
        if let Some(ii) = find_image(&design.images, comp.image_name.as_str()) {
            let image = &design.images[ii];
            proof {
                assert(image_of_component(design@, c as int) == Some(ii as int));
                assert(design@.images[ii as int] == image@);
            }
            let mut p: usize = 0;
            while p < comp.places.len()
                invariant
                    grid.wf(),
                    grid.same_frame(*old(grid)),
                    grid.grid_size == grid_size,
                    routable(design@, offsets@),
                    grid.num_layers == layer_count(design@),
                    signal_layers@ == signal_layers_of(design@.layers),
                    1 <= clearance_cells <= coord_limit(),
                    c < design@.components.len(),
                    design@.components[c as int] == comp@,
                    image_of_component(design@, c as int) == Some(ii as int),
                    design@.images[ii as int] == image@,
                    p <= comp.places.len(),
                    g0 == *old(grid),
                    d == design@,
                    o == offsets@,
                    sig == signal_layers@,
                    cc == clearance_cells,
                    grid.fills(g0, pads_hit(d, o, g0, sig, cc, c as int, p as int, 0), true),
                decreases comp.places.len() - p,
            {
                let place = &comp.places[p];
                proof {
                    assert(comp@.places[p as int] == place@);
                    assert(coord_ok(design@.components[c as int].places[p as int].x));
                    assert(coord_ok(design@.components[c as int].places[p as int].y));
                }
                let mut k: usize = 0;
                while k < image.pins.len()
                    invariant
                        grid.wf(),
                        grid.same_frame(*old(grid)),
                        grid.grid_size == grid_size,
                        routable(design@, offsets@),
                        grid.num_layers == layer_count(design@),
                        signal_layers@ == signal_layers_of(design@.layers),
                        1 <= clearance_cells <= coord_limit(),
                        c < design@.components.len(),
                        design@.components[c as int] == comp@,
                        image_of_component(design@, c as int) == Some(ii as int),
                        design@.images[ii as int] == image@,
                        p < comp.places.len(),
                        comp@.places[p as int] == place@,
                        coord_ok(place.x) && coord_ok(place.y),
                        k <= image.pins.len(),
                        g0 == *old(grid),
                        d == design@,
                        o == offsets@,
                        sig == signal_layers@,
                        cc == clearance_cells,
                        grid.fills(g0, pads_hit(d, o, g0, sig, cc, c as int, p as int, k as int), true),
                    decreases image.pins.len() - k,
                {
                    let pin = &image.pins[k];
                    let (dx, dy) = pin_offset(design, offsets, c, p, k);
                    let (gx, gy) = grid.dsn_to_grid(place.x + dx, place.y + dy);
                    let ps = find_padstack(&design.padstacks, pin.padstack_name.as_str());
                    let pad_radius = match ps {
                        Some(j) => {
                            proof {
                                assert(design@.padstacks[j as int] == design.padstacks@[j as int]@);
                                assert forall|t: int|
                                    0 <= t < design.padstacks@[j as int].shapes@.len() implies shape_in_range(
                                    #[trigger] design.padstacks@[j as int].shapes@[t]@,
                                ) by {
                                    assert(design@.padstacks[j as int].shapes[t]
                                        == design.padstacks@[j as int].shapes@[t]@);
                                }
                            }
                            max_pad_radius(&design.padstacks[j].shapes, grid_size, clearance_cells)
                        },
                        None => clearance_cells + 1,
                    };
                    let ghost g1 = *grid;
                    mark_pad(grid, design, ps, signal_layers, gx, gy, pad_radius);
                    proof {
                        assert(design@.images[ii as int].pins[k as int] == image.pins@[k as int]@);
                        assert(pad_valid(d, c as int, p as int, k as int));
                        assert(ps == pad_stack(d, c as int, k as int));
                        let h1 = pads_hit(d, o, g0, sig, cc, c as int, p as int, k as int);
                        let h2 = pad_hit(d, ps, sig, gx as int, gy as int, pad_radius as int);
                        let h = pads_hit(d, o, g0, sig, cc, c as int, p as int, k + 1);
                        assert(h2 == pad_cells(d, o, g0, sig, cc, c as int, p as int, k as int));
                        assert forall|l: int, x: int, y: int| #[trigger] h(l, x, y) == (h1(l, x, y) || h2(l, x, y)) by {
                            if h(l, x, y) {
                                let (c1, p1, k1) = choose|c1: int, p1: int, k1: int|
                                    #[trigger] pad_valid(d, c1, p1, k1) && pad_before(c1, p1, k1, c as int, p as int, k + 1)
                                        && pad_cells(d, o, g0, sig, cc, c1, p1, k1)(l, x, y);
                                if !(c1 == c && p1 == p && k1 == k) {
                                    assert(pad_before(c1, p1, k1, c as int, p as int, k as int));
                                    assert(h1(l, x, y));
                                }
                            }
                            if h2(l, x, y) {
                                assert(pad_before(c as int, p as int, k as int, c as int, p as int, k + 1));
                                assert(h(l, x, y));
                            }
                            if h1(l, x, y) {
                                let (c1, p1, k1) = choose|c1: int, p1: int, k1: int|
                                    #[trigger] pad_valid(d, c1, p1, k1) && pad_before(c1, p1, k1, c as int, p as int, k as int)
                                        && pad_cells(d, o, g0, sig, cc, c1, p1, k1)(l, x, y);
                                assert(pad_before(c1, p1, k1, c as int, p as int, k + 1));
                                assert(h(l, x, y));
                            }
                        }
                        lemma_fills_then(g0, g1, *grid, h1, h2, h, true);
                    }
                    k = k + 1;
                }
                proof {
                    let h1 = pads_hit(d, o, g0, sig, cc, c as int, p as int, k as int);
                    let h = pads_hit(d, o, g0, sig, cc, c as int, p + 1, 0);
                    assert forall|l: int, x: int, y: int| #[trigger] h(l, x, y) == h1(l, x, y) by {
                        if h(l, x, y) {
                            let (c1, p1, k1) = choose|c1: int, p1: int, k1: int|
                                #[trigger] pad_valid(d, c1, p1, k1) && pad_before(c1, p1, k1, c as int, p + 1, 0)
                                    && pad_cells(d, o, g0, sig, cc, c1, p1, k1)(l, x, y);
                            if c1 == c && p1 == p {
                                assert(k1 < image.pins@.len());
                            }
                            assert(pad_before(c1, p1, k1, c as int, p as int, k as int));
                            assert(h1(l, x, y));
                        }
                        if h1(l, x, y) {
                            let (c1, p1, k1) = choose|c1: int, p1: int, k1: int|
                                #[trigger] pad_valid(d, c1, p1, k1) && pad_before(c1, p1, k1, c as int, p as int, k as int)
                                    && pad_cells(d, o, g0, sig, cc, c1, p1, k1)(l, x, y);
                            assert(pad_before(c1, p1, k1, c as int, p + 1, 0));
                            assert(h(l, x, y));
                        }
                    }
                    lemma_fills_same(g0, *grid, h1, h, true);
                }
                p = p + 1;
            }
            proof {
                let h1 = pads_hit(d, o, g0, sig, cc, c as int, p as int, 0);
                let h = pads_hit(d, o, g0, sig, cc, c + 1, 0, 0);
                assert forall|l: int, x: int, y: int| #[trigger] h(l, x, y) == h1(l, x, y) by {
                    if h(l, x, y) {
                        let (c1, p1, k1) = choose|c1: int, p1: int, k1: int|
                            #[trigger] pad_valid(d, c1, p1, k1) && pad_before(c1, p1, k1, c + 1, 0, 0)
                                && pad_cells(d, o, g0, sig, cc, c1, p1, k1)(l, x, y);
                        if c1 == c {
                            assert(p1 < comp@.places.len());
                        }
                        assert(pad_before(c1, p1, k1, c as int, p as int, 0));
                        assert(h1(l, x, y));
                    }
                    if h1(l, x, y) {
                        let (c1, p1, k1) = choose|c1: int, p1: int, k1: int|
                            #[trigger] pad_valid(d, c1, p1, k1) && pad_before(c1, p1, k1, c as int, p as int, 0)
                                && pad_cells(d, o, g0, sig, cc, c1, p1, k1)(l, x, y);
                        assert(pad_before(c1, p1, k1, c + 1, 0, 0));
                        assert(h(l, x, y));
                    }
                }
                lemma_fills_same(g0, *grid, h1, h, true);
            }
        } else {
            proof {
                let h1 = pads_hit(d, o, g0, sig, cc, c as int, 0, 0);
                let h = pads_hit(d, o, g0, sig, cc, c + 1, 0, 0);
                assert(image_of_component(d, c as int) is None);
                assert forall|l: int, x: int, y: int| #[trigger] h(l, x, y) == h1(l, x, y) by {
                    if h(l, x, y) {
                        let (c1, p1, k1) = choose|c1: int, p1: int, k1: int|
                            #[trigger] pad_valid(d, c1, p1, k1) && pad_before(c1, p1, k1, c + 1, 0, 0)
                                && pad_cells(d, o, g0, sig, cc, c1, p1, k1)(l, x, y);
                        assert(c1 != c);
                        assert(pad_before(c1, p1, k1, c as int, 0, 0));
                        assert(h1(l, x, y));
                    }
                    if h1(l, x, y) {
                        let (c1, p1, k1) = choose|c1: int, p1: int, k1: int|
                            #[trigger] pad_valid(d, c1, p1, k1) && pad_before(c1, p1, k1, c as int, 0, 0)
                                && pad_cells(d, o, g0, sig, cc, c1, p1, k1)(l, x, y);
                        assert(pad_before(c1, p1, k1, c + 1, 0, 0));
                        assert(h(l, x, y));
                    }
                }
                lemma_fills_same(g0, *grid, h1, h, true);
            }
        }
        c = c + 1;
    }
}

/// The clearance in cells: at least one.
pub open spec fn clearance_cells_of(clearance: int, gs: int) -> int {
    if clearance / gs < 1 {
        1
    } else {
        clearance / gs
    }
}

/// The radius in cells marked around a wire point: half the width in cells
/// (none when negative) plus the clearance in cells.
pub open spec fn wire_radius(width: int, gs: int, cc: int) -> int {
    (if trunc_div(trunc_div(width, 2), gs) < 0 {
        0
    } else {
        trunc_div(trunc_div(width, 2), gs)
    }) + cc
}

/// The cells the existing wiring marks, up to point `t` of wire `w`: around
/// the cell of each point, on the wire's plane.
spec fn wiring_hit(d: DesignView, g: Grid, sig: Seq<usize>, cc: int, w: int, t: int) -> spec_fn(int, int, int) -> bool {
    |l: int, x: int, y: int|
        exists|a: int, b: int|
            0 <= a < d.wiring.len() && 0 <= b < d.wiring[a].points.len() && (a < w || (a == w && b < t)) && l
                == layer_index_of(d, d.wiring[a].layer, sig) && in_circle(
                trunc_div(#[trigger] d.wiring[a].points[b].x - g.offset_x, g.grid_size as int),
                trunc_div(d.wiring[a].points[b].y - g.offset_y, g.grid_size as int),
                wire_radius(d.wiring[a].width as int, g.grid_size as int, cc),
                x,
                y,
            )
}

/// Marks every point of the design's existing wiring as an obstacle, with
/// half the wire's width plus the clearance.
fn mark_existing_wires(
    grid: &mut Grid,
    design: &DsnDesign,
    signal_layers: &Vec<usize>,
    clearance: i64,
)
    requires
        old(grid).wf(),
        old(grid).num_layers == layer_count(design@),
        forall|i: int|
            0 <= i < design@.layers.len() ==> (#[trigger] design@.layers[i]).index < layer_count(
                design@,
            ),
        forall|w: int| 0 <= w < design@.wiring.len() ==> wire_in_range(#[trigger] design@.wiring[w]),
        signal_layers@ == signal_layers_of(design@.layers),
        1 <= clearance <= coord_limit(),
    ensures
        final(grid).wf(),
        final(grid).same_frame(*old(grid)),
        final(grid).fills(
            *old(grid),
            wiring_hit(
                design@,
                *old(grid),
                signal_layers@,
                clearance_cells_of(clearance as int, old(grid).grid_size as int),
                design@.wiring.len() as int,
                0,
            ),
            true,
        ),
{
    let ghost g0 = *grid;
    let ghost d = design@;
    let ghost sig = signal_layers@;
    let grid_size = grid.grid_size;
    let cc0 = clearance / grid_size;
    let clearance_cells = if cc0 < 1 { 1 } else { cc0 };
    proof {
        assert(clearance_cells == clearance_cells_of(clearance as int, g0.grid_size as int));
        lemma_fills_none(*grid, wiring_hit(d, g0, sig, clearance_cells as int, 0, 0), true);
    }
    let mut w: usize = 0;
    while w < design.wiring.len()
        invariant
            grid.wf(),
            grid.same_frame(*old(grid)),
            grid.grid_size == grid_size,
            grid.num_layers == layer_count(design@),
            forall|i: int|
                0 <= i < design@.layers.len() ==> (#[trigger] design@.layers[i]).index
                    < layer_count(design@),
            forall|x: int| 0 <= x < design@.wiring.len() ==> wire_in_range(#[trigger] design@.wiring[x]),
            signal_layers@ == signal_layers_of(design@.layers),
            1 <= clearance_cells <= coord_limit(),
            w <= design.wiring.len(),
            design@.wiring.len() == design.wiring.len(),
            g0 == *old(grid),
            d == design@,
            sig == signal_layers@,
            grid.fills(g0, wiring_hit(d, g0, sig, clearance_cells as int, w as int, 0), true),
        decreases design.wiring.len() - w,
    {
        let wire = &design.wiring[w];
        proof {
            assert(design@.wiring[w as int] == wire@);
            assert(wire_in_range(wire@));
        }
        let li = layer_index(design, wire.layer.as_str(), signal_layers);
        proof {
            lemma_layer_index_bound(design@, wire@.layer);
        }
        let half = wire.width / 2 / grid_size;
        let trace_r = (if half < 0 { 0 } else { half }) + clearance_cells;
        let mut t: usize = 0;
        while t < wire.points.len()
            invariant
                grid.wf(),
                grid.same_frame(*old(grid)),
                grid.grid_size == grid_size,
                grid.num_layers == layer_count(design@),
                li < layer_count(design@),
                points_in_range(wire.points@),
                0 <= trace_r <= 2 * coord_limit(),
                t <= wire.points.len(),
                w < d.wiring.len(),
                d.wiring[w as int] == wire@,
                li == layer_index_of(d, wire@.layer, sig),
                trace_r == wire_radius(wire.width as int, grid_size as int, clearance_cells as int),
                g0 == *old(grid),
                d == design@,
                sig == signal_layers@,
                grid.fills(g0, wiring_hit(d, g0, sig, clearance_cells as int, w as int, t as int), true),
            decreases wire.points.len() - t,
        {
            let pt = wire.points[t];
            proof {
                assert(coord_ok(wire.points@[t as int].x));
            }
            let (gx, gy) = grid.dsn_to_grid(pt.x, pt.y);
            let ghost g1 = *grid;
            grid.mark_circle(li, gx, gy, trace_r);
            proof {
                let h1 = wiring_hit(d, g0, sig, clearance_cells as int, w as int, t as int);
                let h2 = circle_hit(li as int, gx as int, gy as int, trace_r as int);
                let h = wiring_hit(d, g0, sig, clearance_cells as int, w as int, t + 1);
                assert(d.wiring[w as int].points[t as int] == pt);
                assert forall|l: int, x: int, y: int| #[trigger] h(l, x, y) == (h1(l, x, y) || h2(l, x, y)) by {
                    if h(l, x, y) {
                        let (a, b) = choose|a: int, b: int|
                            0 <= a < d.wiring.len() && 0 <= b < d.wiring[a].points.len() && (a < w || (a == w && b < t + 1)) && l
                                == layer_index_of(d, d.wiring[a].layer, sig) && in_circle(
                                trunc_div(#[trigger] d.wiring[a].points[b].x - g0.offset_x, g0.grid_size as int),
                                trunc_div(d.wiring[a].points[b].y - g0.offset_y, g0.grid_size as int),
                                wire_radius(d.wiring[a].width as int, g0.grid_size as int, clearance_cells as int),
                                x,
                                y,
                            );
                        if !(a == w && b == t) {
                            assert(h1(l, x, y));
                        }
                    }
                    if h2(l, x, y) {
                        assert(h(l, x, y));
                    }
                    if h1(l, x, y) {
                        let (a, b) = choose|a: int, b: int|
                            0 <= a < d.wiring.len() && 0 <= b < d.wiring[a].points.len() && (a < w || (a == w && b < t)) && l
                                == layer_index_of(d, d.wiring[a].layer, sig) && in_circle(
                                trunc_div(#[trigger] d.wiring[a].points[b].x - g0.offset_x, g0.grid_size as int),
                                trunc_div(d.wiring[a].points[b].y - g0.offset_y, g0.grid_size as int),
                                wire_radius(d.wiring[a].width as int, g0.grid_size as int, clearance_cells as int),
                                x,
                                y,
                            );
                        assert(h(l, x, y));
                    }
                }
                lemma_fills_then(g0, g1, *grid, h1, h2, h, true);
            }
            t = t + 1;
        }
        proof {
            let h1 = wiring_hit(d, g0, sig, clearance_cells as int, w as int, t as int);
            let h = wiring_hit(d, g0, sig, clearance_cells as int, w + 1, 0);
            assert forall|l: int, x: int, y: int| #[trigger] h(l, x, y) == h1(l, x, y) by {
                if h(l, x, y) {
                    let (a, b) = choose|a: int, b: int|
                        0 <= a < d.wiring.len() && 0 <= b < d.wiring[a].points.len() && (a < w + 1 || (a == w + 1 && b < 0)) && l
                            == layer_index_of(d, d.wiring[a].layer, sig) && in_circle(
                            trunc_div(#[trigger] d.wiring[a].points[b].x - g0.offset_x, g0.grid_size as int),
                            trunc_div(d.wiring[a].points[b].y - g0.offset_y, g0.grid_size as int),
                            wire_radius(d.wiring[a].width as int, g0.grid_size as int, clearance_cells as int),
                            x,
                            y,
                        );
                    assert(h1(l, x, y));
                }
                if h1(l, x, y) {
                    let (a, b) = choose|a: int, b: int|
                        0 <= a < d.wiring.len() && 0 <= b < d.wiring[a].points.len() && (a < w || (a == w && b < t)) && l
                            == layer_index_of(d, d.wiring[a].layer, sig) && in_circle(
                            trunc_div(#[trigger] d.wiring[a].points[b].x - g0.offset_x, g0.grid_size as int),
                            trunc_div(d.wiring[a].points[b].y - g0.offset_y, g0.grid_size as int),
                            wire_radius(d.wiring[a].width as int, g0.grid_size as int, clearance_cells as int),
                            x,
                            y,
                        );
                    assert(h(l, x, y));
                }
            }
            lemma_fills_same(g0, *grid, h1, h, true);
        }
        w = w + 1;
    }
}


// ─── from a path to wires and vias ────────────────────────────────────────────

/// The design point at the centre of the cell of `s`.
pub open spec fn center_of(offset_x: i64, offset_y: i64, gs: i64, gx: int, gy: int) -> (i64, i64) {
    ((offset_x + gx * gs + gs / 2) as i64, (offset_y + gy * gs + gs / 2) as i64)
}

impl Grid {
    spec fn center(&self, s: State) -> (i64, i64) {
        center_of(self.offset_x, self.offset_y, self.grid_size, s.gx as int, s.gy as int)
    }
}

/// A point inside a grid frame `(x0, y0, size, across, down)`: in one of
/// its cells, counted from the lower corner `(x0, y0)`.
pub open spec fn in_frame(f: (int, int, int, int, int), p: (i64, i64)) -> bool {
    f.0 <= p.0 < f.0 + f.3 * f.2 && f.1 <= p.1 < f.1 + f.4 * f.2
}

/// Every point of the wire lies inside the frame.
pub open spec fn wire_in_frame(f: (int, int, int, int, int), w: RoutedWire) -> bool {
    forall|i: int| 0 <= i < w.points@.len() ==> in_frame(f, #[trigger] w.points@[i])
}

/// The via lies inside the frame.
pub open spec fn via_in_frame(f: (int, int, int, int, int), v: RoutedVia) -> bool {
    in_frame(f, (v.x, v.y))
}

impl Grid {
    spec fn frame(&self) -> (int, int, int, int, int) {
        (self.offset_x as int, self.offset_y as int, self.grid_size as int, self.width as int, self.height as int)
    }
}

proof fn lemma_center_in_cells(o: int, gs: int, n: int, g: int)
    requires
        1 <= gs,
        0 <= g < n,
    ensures
        o <= o + g * gs + gs / 2 < o + n * gs,
{
    assert(0 <= g * gs) by (nonlinear_arith)
        requires
            0 <= g,
            1 <= gs,
    ;
    assert(g * gs + gs <= n * gs) by (nonlinear_arith)
        requires
            g + 1 <= n,
            1 <= gs,
    ;
}

proof fn lemma_kept_within(pts: Seq<(i64, i64)>, i: int, kept: Seq<(i64, i64)>)
    requires
        forall|k: int| 0 <= k < kept.len() ==> pts.contains(#[trigger] kept[k]),
    ensures
        forall|k: int| 0 <= k < kept_bends(pts, i, kept).len() ==> pts.contains(#[trigger] kept_bends(pts, i, kept)[k]),
    decreases pts.len() - i,
{
    if i < 1 || i >= pts.len() - 1 || kept.len() == 0 {
        assert(kept_bends(pts, i, kept) == kept);
    } else if is_bend(kept.last(), pts[i], pts[i + 1]) {
        let k2 = kept.push(pts[i]);
        assert forall|k: int| 0 <= k < k2.len() implies pts.contains(#[trigger] k2[k]) by {
            if k == kept.len() {
                assert(pts[i] == k2[k]);
            } else {
                assert(k2[k] == kept[k]);
            }
        }
        lemma_kept_within(pts, i + 1, k2);
        assert(kept_bends(pts, i, kept) == kept_bends(pts, i + 1, k2));
    } else {
        lemma_kept_within(pts, i + 1, kept);
        assert(kept_bends(pts, i, kept) == kept_bends(pts, i + 1, kept));
    }
}

proof fn lemma_merged_within(pts: Seq<(i64, i64)>)
    ensures
        forall|k: int| 0 <= k < merged(pts).len() ==> pts.contains(#[trigger] merged(pts)[k]),
{
    if pts.len() > 2 {
        let first = seq![pts[0]];
        assert(pts.contains(first[0]));
        lemma_kept_within(pts, 1, first);
        let kb = kept_bends(pts, 1, first);
        assert forall|k: int| 0 <= k < merged(pts).len() implies pts.contains(#[trigger] merged(pts)[k]) by {
            if k < kb.len() {
                assert(merged(pts)[k] == kb[k]);
            } else {
                assert(merged(pts)[k] == pts[pts.len() - 1]);
            }
        }
    } else {
        assert forall|k: int| 0 <= k < merged(pts).len() implies pts.contains(#[trigger] merged(pts)[k]) by {
            assert(merged(pts)[k] == pts[k]);
        }
    }
}

/// Where a path changes layer: the centre of the cell before each change.
spec fn via_spots(grid: &Grid, p: Seq<State>, n: int) -> Seq<(i64, i64)>
    decreases n,
{
    if n <= 1 {
        Seq::empty()
    } else if p[n - 1].layer != p[n - 2].layer {
        via_spots(grid, p, n - 1).push(grid.center(p[n - 2]))
    } else {
        via_spots(grid, p, n - 1)
    }
}

/// A wire of net `net` as the router emits it: its name, the width, at least
/// two points, and the name of one of the grid planes `layers` holds.
pub open spec fn wire_fits(d: DesignView, w: RoutedWire, net: Seq<char>, width: int, layers: Set<usize>) -> bool {
    &&& w.net_name@ == net
    &&& w.width == width
    &&& w.points@.len() >= 2
    &&& exists|l: usize| layers.contains(l) && w.layer@ == layer_name_of(d, l)
}

/// A via of net `net` as the router emits it.
pub open spec fn via_fits(v: RoutedVia, net: Seq<char>) -> bool {
    &&& v.net_name@ == net
    &&& v.padstack_name@ == "via"@
}

spec fn path_layers(p: Seq<State>) -> Set<usize> {
    Set::new(|l: usize| exists|i: int| 0 <= i < p.len() && p[i].layer as usize == l)
}

/// The wires that remain of a path from cell `i` on, with `seg` the centres
/// of the run so far, on plane `cur`: each run of two centres or more on one
/// plane becomes a wire of its merged centres; a change of plane starts the
/// next run at the centre of the cell before it.
spec fn seg_runs(grid: &Grid, p: Seq<State>, i: int, seg: Seq<(i64, i64)>, cur: u8) -> Seq<(u8, Seq<(i64, i64)>)>
    decreases p.len() - i,
{
    if i < 1 || i >= p.len() {
        if seg.len() >= 2 {
            seq![(cur, merged(seg))]
        } else {
            Seq::empty()
        }
    } else if p[i].layer != cur {
        (if seg.len() >= 2 {
            seq![(cur, merged(seg))]
        } else {
            Seq::empty()
        }) + seg_runs(grid, p, i + 1, seq![grid.center(p[i - 1]), grid.center(p[i])], p[i].layer)
    } else {
        seg_runs(grid, p, i + 1, seg.push(grid.center(p[i])), cur)
    }
}

/// The wires of a path, as (plane, points): one per run of two cells or
/// more on one plane, made of the cells' centres with the straight-through
/// points dropped; none for a path of one cell or none.
spec fn wire_runs(grid: &Grid, p: Seq<State>) -> Seq<(u8, Seq<(i64, i64)>)> {
    if p.len() == 0 {
        Seq::empty()
    } else {
        seg_runs(grid, p, 1, seq![grid.center(p[0])], p[0].layer)
    }
}

/// Wire `w` is run `run` of a path, of net `net`, with width `width`.
pub open spec fn wire_is_run(d: DesignView, w: RoutedWire, run: (u8, Seq<(i64, i64)>), net: Seq<char>, width: int) -> bool {
    &&& w.net_name@ == net
    &&& w.width == width
    &&& w.layer@ == layer_name_of(d, run.0 as usize)
    &&& w.points@ == run.1
}

/// The design point at the centre of cell `(gx, gy)` of the grid frame `f`
/// (see [`in_frame`]).
pub open spec fn frame_center(f: (int, int, int, int, int), gx: int, gy: int) -> (i64, i64) {
    ((f.0 + gx * f.2 + f.2 / 2) as i64, (f.1 + gy * f.2 + f.2 / 2) as i64)
}

/// The cell of frame `f` that holds design point `p`.
pub open spec fn cell_of(f: (int, int, int, int, int), p: (i64, i64)) -> (int, int) {
    (trunc_div(p.0 - f.0, f.2), trunc_div(p.1 - f.1, f.2))
}

/// The wires that remain of a path of cells `(gx, gy, plane)` from cell `i`
/// on, with `seg` the centres of the run so far, on plane `cur`: each run of
/// two centres or more on one plane becomes a wire of its merged centres; a
/// change of plane starts the next run at the centre of the cell before it.
pub open spec fn cell_runs(
    f: (int, int, int, int, int),
    p: Seq<(i32, i32, u8)>,
    i: int,
    seg: Seq<(i64, i64)>,
    cur: u8,
) -> Seq<(u8, Seq<(i64, i64)>)>
    decreases p.len() - i,
{
    if i < 1 || i >= p.len() {
        if seg.len() >= 2 {
            seq![(cur, merged(seg))]
        } else {
            Seq::empty()
        }
    } else if p[i].2 != cur {
        (if seg.len() >= 2 {
            seq![(cur, merged(seg))]
        } else {
            Seq::empty()
        }) + cell_runs(
            f,
            p,
            i + 1,
            seq![frame_center(f, p[i - 1].0 as int, p[i - 1].1 as int), frame_center(f, p[i].0 as int, p[i].1 as int)],
            p[i].2,
        )
    } else {
        cell_runs(f, p, i + 1, seg.push(frame_center(f, p[i].0 as int, p[i].1 as int)), cur)
    }
}

/// The wires of a path of cells in frame `f`, as (plane, points): one per
/// run of two cells or more on one plane, made of the cells' centres with
/// the straight-through points dropped.
pub open spec fn path_runs(f: (int, int, int, int, int), p: Seq<(i32, i32, u8)>) -> Seq<(u8, Seq<(i64, i64)>)> {
    if p.len() == 0 {
        Seq::empty()
    } else {
        cell_runs(f, p, 1, seq![frame_center(f, p[0].0 as int, p[0].1 as int)], p[0].2)
    }
}

/// The wires of several paths, one path after the other.
pub open spec fn runs_of(f: (int, int, int, int, int), paths: Seq<Seq<(i32, i32, u8)>>) -> Seq<(u8, Seq<(i64, i64)>)>
    decreases paths.len(),
{
    if paths.len() == 0 {
        Seq::empty()
    } else {
        runs_of(f, paths.drop_last()) + path_runs(f, paths.last())
    }
}

/// `ws` are the wires of `runs`, one each, of net `net` and width `width`.
pub open spec fn wires_are_runs(
    d: DesignView,
    ws: Seq<RoutedWire>,
    runs: Seq<(u8, Seq<(i64, i64)>)>,
    net: Seq<char>,
    width: int,
) -> bool {
    &&& ws.len() == runs.len()
    &&& forall|k: int| 0 <= k < ws.len() ==> wire_is_run(d, #[trigger] ws[k], runs[k], net, width)
}

/// A cell of a path as integers.
pub open spec fn cell3(c: (i32, i32, u8)) -> (int, int, int) {
    (c.0 as int, c.1 as int, c.2 as int)
}

/// A move of a path: to one of the eight neighbours on the same plane, or to
/// another plane of the same cell.
pub open spec fn cell_step(a: (i32, i32, u8), b: (i32, i32, u8)) -> bool {
    ||| (a.2 == b.2 && -1 <= b.0 - a.0 <= 1 && -1 <= b.1 - a.1 <= 1 && (b.0 != a.0 || b.1 != a.1))
    ||| (a.0 == b.0 && a.1 == b.1 && a.2 != b.2)
}

/// Every move of path `p` is a [`cell_step`].
pub open spec fn steps_ok(p: Seq<(i32, i32, u8)>) -> bool {
    forall|x: int| 1 <= x < p.len() ==> cell_step(p[x - 1], #[trigger] p[x])
}

/// Cell `c` (x, y, plane) is copper of the net before path `j`: it is on the
/// cell of the first pad `pads[0]`, or a cell of one of the paths before `j`,
/// or on the cell of a pad that one of those paths reached.
pub open spec fn joined_before(
    f: (int, int, int, int, int),
    pads: Seq<(i64, i64)>,
    paths: Seq<Seq<(i32, i32, u8)>>,
    reached: Seq<int>,
    j: int,
    c: (int, int, int),
) -> bool {
    ||| (c.0, c.1) == cell_of(f, pads[0])
    ||| exists|jj: int, x: int|
        #![trigger paths[jj][x]]
        0 <= jj < j && 0 <= x < paths[jj].len() && cell3(paths[jj][x]) == c
    ||| exists|jj: int| 0 <= jj < j && (c.0, c.1) == cell_of(f, pads[#[trigger] reached[jj]])
}

/// Cell `e` lies within `radius` cells, in x and in y, of the cell of point
/// `t`.
pub open spec fn ends_near(f: (int, int, int, int, int), e: (i32, i32, u8), t: (i64, i64), radius: int) -> bool {
    &&& cell_of(f, t).0 - radius <= e.0 <= cell_of(f, t).0 + radius
    &&& cell_of(f, t).1 - radius <= e.1 <= cell_of(f, t).1 + radius
}

/// Path `j` starts on copper of the net laid before it, moves by
/// [`cell_step`]s, and ends near the pad `pads[reached[j]]`.
pub open spec fn path_joins(
    f: (int, int, int, int, int),
    pads: Seq<(i64, i64)>,
    radius: int,
    paths: Seq<Seq<(i32, i32, u8)>>,
    reached: Seq<int>,
    j: int,
) -> bool {
    &&& paths[j].len() >= 1
    &&& steps_ok(paths[j])
    &&& joined_before(f, pads, paths, reached, j, cell3(paths[j][0]))
    &&& ends_near(f, paths[j].last(), pads[reached[j]], radius)
}

/// `paths` join pads of a net at `pads`, starting from the first: path `j`
/// reaches pad `reached[j]`, the pads reached come in the order of `pads`,
/// and each path starts from the copper laid before it.
pub open spec fn paths_join(
    f: (int, int, int, int, int),
    pads: Seq<(i64, i64)>,
    radius: int,
    paths: Seq<Seq<(i32, i32, u8)>>,
    reached: Seq<int>,
) -> bool {
    &&& pads.len() >= 1
    &&& paths.len() == reached.len()
    &&& forall|j: int| 0 <= j < reached.len() ==> 1 <= #[trigger] reached[j] < pads.len()
    &&& forall|a: int, b: int| 0 <= a < b < reached.len() ==> #[trigger] reached[a] < #[trigger] reached[b]
    &&& forall|j: int| 0 <= j < paths.len() ==> #[trigger] path_joins(f, pads, radius, paths, reached, j)
}

/// The centres where the first `n` cells of path `p` change plane: the
/// centre of the cell before each change.
pub open spec fn cell_vias(f: (int, int, int, int, int), p: Seq<(i32, i32, u8)>, n: int) -> Seq<(i64, i64)>
    decreases n,
{
    if n <= 1 {
        Seq::empty()
    } else if p[n - 1].2 != p[n - 2].2 {
        cell_vias(f, p, n - 1).push(frame_center(f, p[n - 2].0 as int, p[n - 2].1 as int))
    } else {
        cell_vias(f, p, n - 1)
    }
}

/// The vias of several paths, one path after the other.
pub open spec fn vias_of(f: (int, int, int, int, int), paths: Seq<Seq<(i32, i32, u8)>>) -> Seq<(i64, i64)>
    decreases paths.len(),
{
    if paths.len() == 0 {
        Seq::empty()
    } else {
        vias_of(f, paths.drop_last()) + cell_vias(f, paths.last(), paths.last().len() as int)
    }
}

/// `vs` are vias of net `net` on the padstack `via`, one at each of `spots`,
/// in order.
pub open spec fn vias_are_spots(vs: Seq<RoutedVia>, spots: Seq<(i64, i64)>, net: Seq<char>) -> bool {
    &&& vs.len() == spots.len()
    &&& forall|k: int|
        0 <= k < vs.len() ==> (#[trigger] vs[k]).net_name@ == net && vs[k].padstack_name@ == "via"@ && (vs[k].x, vs[k].y)
            == spots[k]
}

/// Paths `paths` reaching pads `reached` of a net at `pads` (see
/// [`paths_join`]) make wires `w` (their runs, of net `name` and width
/// `width`) and vias `v` (one at each of their changes of plane); with
/// `all`, they reach every pad.
pub open spec fn paths_make(
    d: DesignView,
    f: (int, int, int, int, int),
    radius: int,
    pads: Seq<(i64, i64)>,
    name: Seq<char>,
    width: int,
    w: Seq<RoutedWire>,
    v: Seq<RoutedVia>,
    all: bool,
    paths: Seq<Seq<(i32, i32, u8)>>,
    reached: Seq<int>,
) -> bool {
    &&& paths_join(f, pads, radius, paths, reached)
    &&& wires_are_runs(d, w, runs_of(f, paths), name, width)
    &&& vias_are_spots(v, vias_of(f, paths), name)
    &&& (all ==> reached.len() + 1 == pads.len())
}

/// Wires `w` and vias `v` of net `name` are made by paths of frame `f` that
/// join pads of the net at `pads` (see [`paths_make`]); with `all`, the
/// paths reach every pad.
pub open spec fn wires_join(
    d: DesignView,
    f: (int, int, int, int, int),
    radius: int,
    pads: Seq<(i64, i64)>,
    name: Seq<char>,
    width: int,
    w: Seq<RoutedWire>,
    v: Seq<RoutedVia>,
    all: bool,
) -> bool {
    exists|paths: Seq<Seq<(i32, i32, u8)>>, reached: Seq<int>|
        #[trigger] paths_make(d, f, radius, pads, name, width, w, v, all, paths, reached)
}

/// The plane of a path cell.
pub open spec fn plane_of(c: (i32, i32, u8)) -> int {
    c.2 as int
}

/// Where the pad of pin `pin` lies, where it can be found.
pub open spec fn pad_spot(d: DesignView, o: Seq<Seq<Seq<(i64, i64)>>>, pin: PinRefView) -> (i64, i64) {
    match pad_position(d, o, pin.component, pin.pin) {
        Some((x, y, _)) => (x, y),
        None => (0, 0),
    }
}

/// Cell `(gx, gy)` lies within the pad zone of pin `pin`: the circle, around
/// the cell of the pad, that the router keeps free of other copper (the
/// padstack's radius in cells, see [`pad_radius_of`], with `cc` the
/// clearance in cells).
pub open spec fn pad_zone_of(
    d: DesignView,
    o: Seq<Seq<Seq<(i64, i64)>>>,
    f: (int, int, int, int, int),
    cc: int,
    pin: PinRefView,
    gx: int,
    gy: int,
) -> bool {
    &&& pad_padstack(d, pin.component, pin.pin) is Some
    &&& pad_position(d, o, pin.component, pin.pin) is Some
    &&& in_circle(
        cell_of(f, pad_spot(d, o, pin)).0,
        cell_of(f, pad_spot(d, o, pin)).1,
        pad_radius_of(d.padstacks[pad_padstack(d, pin.component, pin.pin)->0].shapes, f.2, cc),
        gx,
        gy,
    )
}

/// Cell `(gx, gy)` lies in the pad zone of one of `pins`.
pub open spec fn in_pad_zone(
    d: DesignView,
    o: Seq<Seq<Seq<(i64, i64)>>>,
    f: (int, int, int, int, int),
    cc: int,
    pins: Seq<PinRefView>,
    gx: int,
    gy: int,
) -> bool {
    exists|k: int| 0 <= k < pins.len() && #[trigger] pad_zone_of(d, o, f, cc, pins[k], gx, gy)
}

/// Where cell `c` of path `j` of a net (pins `pins`, pads at `pads`) may
/// come near copper laid before the net: near the pad the path reaches, or
/// in a pad zone of the net's own pins.
pub open spec fn may_near(
    d: DesignView,
    o: Seq<Seq<Seq<(i64, i64)>>>,
    f: (int, int, int, int, int),
    cc: int,
    radius: int,
    pins: Seq<PinRefView>,
    pads: Seq<(i64, i64)>,
    reached: Seq<int>,
    j: int,
    c: (i32, i32, u8),
) -> bool {
    ends_near(f, c, pads[reached[j]], radius) || in_pad_zone(d, o, f, cc, pins, c.0 as int, c.1 as int)
}

spec fn path_cells(p: Seq<State>) -> Seq<(i32, i32, u8)> {
    p.map_values(|s: State| (s.gx, s.gy, s.layer))
}

spec fn cell_key(c: (i32, i32, usize)) -> (int, int, int) {
    (c.0 as int, c.1 as int, c.2 as int)
}

/// Obstacle `ob` is the pad zone of pin `pin` (see [`pad_zone_of`]).
spec fn obstacle_zone(
    d: DesignView,
    o: Seq<Seq<Seq<(i64, i64)>>>,
    f: (int, int, int, int, int),
    cc: int,
    pin: PinRefView,
    ob: (i64, i64, Vec<usize>, i64),
) -> bool {
    &&& pad_padstack(d, pin.component, pin.pin) is Some
    &&& pad_position(d, o, pin.component, pin.pin) is Some
    &&& (ob.0 as int, ob.1 as int) == cell_of(
        f,
        pad_spot(d, o, pin),
    )
    &&& ob.3 as int == pad_radius_of(d.padstacks[pad_padstack(d, pin.component, pin.pin)->0].shapes, f.2, cc)
}

proof fn lemma_hit_in_zone(
    d: DesignView,
    o: Seq<Seq<Seq<(i64, i64)>>>,
    f: (int, int, int, int, int),
    cc: int,
    pins: Seq<PinRefView>,
    obs: Seq<(i64, i64, Vec<usize>, i64)>,
    ob_pins: Seq<int>,
    l: int,
    gx: int,
    gy: int,
)
    requires
        ob_pins.len() == obs.len(),
        forall|a: int|
            0 <= a < obs.len() ==> 0 <= #[trigger] ob_pins[a] < pins.len() && obstacle_zone(d, o, f, cc, pins[ob_pins[a]], obs[a]),
        obstacles_hit(obs, obs.len() as int, 0)(l, gx, gy),
    ensures
        in_pad_zone(d, o, f, cc, pins, gx, gy),
{
    let (a, b) = choose|a: int, b: int|
        0 <= a < obs.len() && 0 <= b < obs[a].2@.len() && (a < obs.len() || (a == obs.len() && b < 0)) && #[trigger] obs[a].2@[b]
            as int == l && in_circle(obs[a].0 as int, obs[a].1 as int, obs[a].3 as int, gx, gy);
    let k2 = ob_pins[a];
    assert(obstacle_zone(d, o, f, cc, pins[k2], obs[a]));
    assert(pad_zone_of(d, o, f, cc, pins[k2], gx, gy));
}

/// Every cell of path `q` after the first that is blocked in `g0` lies near
/// pad `pads[t]` or in a pad zone of `pins`.
spec fn path_avoids(
    g0: Grid,
    d: DesignView,
    o: Seq<Seq<Seq<(i64, i64)>>>,
    f: (int, int, int, int, int),
    cc: int,
    radius: int,
    pins: Seq<PinRefView>,
    pads: Seq<(i64, i64)>,
    t: int,
    q: Seq<State>,
) -> bool {
    forall|x: int|
        1 <= x < q.len() && g0.blocked((#[trigger] q[x]).layer as int, q[x].gx as int, q[x].gy as int) ==> ends_near(
            f,
            path_cells(q)[x],
            pads[t],
            radius,
        ) || in_pad_zone(d, o, f, cc, pins, q[x].gx as int, q[x].gy as int)
}

/// Path `q` could be the next of `paths`: it moves by steps, starts on the
/// copper laid so far, and ends near pad `pads[t]`.
spec fn path_lands(
    f: (int, int, int, int, int),
    pads: Seq<(i64, i64)>,
    radius: int,
    paths: Seq<Seq<(i32, i32, u8)>>,
    reached: Seq<int>,
    t: int,
    q: Seq<State>,
) -> bool {
    &&& q.len() >= 1
    &&& steps_ok(path_cells(q))
    &&& joined_before(f, pads, paths, reached, paths.len() as int, cell3(path_cells(q)[0]))
    &&& ends_near(f, path_cells(q).last(), pads[t], radius)
}

impl Grid {
    /// Every cell blocked in `g0` is blocked here.
    spec fn keeps(&self, g0: Grid) -> bool {
        forall|l: int, gx: int, gy: int|
            #![trigger self.blocked(l, gx, gy)]
            0 <= l < g0.num_layers && g0.inside(gx, gy) && g0.blocked(l, gx, gy) ==> self.blocked(l, gx, gy)
    }

    /// Every cell blocked in `g0` and not named by `hit` is blocked here.
    spec fn keeps_outside(&self, g0: Grid, hit: spec_fn(int, int, int) -> bool) -> bool {
        forall|l: int, gx: int, gy: int|
            #![trigger self.blocked(l, gx, gy)]
            0 <= l < g0.num_layers && g0.inside(gx, gy) && g0.blocked(l, gx, gy) && !hit(l, gx, gy) ==> self.blocked(
                l,
                gx,
                gy,
            )
    }
}

/// Every cell within `cc` of one of the first `m` cells of path `p`, on that
/// cell's plane, is blocked in `g`.
spec fn cells_marked(g: Grid, p: Seq<(i32, i32, u8)>, m: int, cc: int) -> bool {
    forall|x: int, gx: int, gy: int|
        #![trigger p[x], g.blocked(plane_of(p[x]), gx, gy)]
        0 <= x < m && 0 <= plane_of(p[x]) < g.num_layers && g.inside(gx, gy) && in_circle(
            p[x].0 as int,
            p[x].1 as int,
            cc,
            gx,
            gy,
        ) ==> g.blocked(plane_of(p[x]), gx, gy)
}

/// Around every cell of every path, the clearance is blocked in `g`.
spec fn paths_marked(g: Grid, paths: Seq<Seq<(i32, i32, u8)>>, cc: int) -> bool {
    forall|j: int| 0 <= j < paths.len() ==> #[trigger] cells_marked(g, paths[j], paths[j].len() as int, cc)
}

/// Every cell of the paths after the first that is blocked in `g0` is one
/// the path may take near other copper (see [`may_near`]).
spec fn paths_clear(
    g0: Grid,
    d: DesignView,
    o: Seq<Seq<Seq<(i64, i64)>>>,
    f: (int, int, int, int, int),
    cc: int,
    radius: int,
    pins: Seq<PinRefView>,
    pads: Seq<(i64, i64)>,
    paths: Seq<Seq<(i32, i32, u8)>>,
    reached: Seq<int>,
) -> bool {
    forall|j: int, x: int|
        #![trigger paths[j][x]]
        0 <= j < paths.len() && 1 <= x < paths[j].len() && g0.blocked(plane_of(paths[j][x]), paths[j][x].0 as int, paths[j][x].1 as int)
            ==> may_near(d, o, f, cc, radius, pins, pads, reached, j, paths[j][x])
}

/// Filling with `true` keeps every blocked cell.
proof fn lemma_fill_true_keeps(g1: Grid, g2: Grid, h: spec_fn(int, int, int) -> bool)
    requires
        g2.fills(g1, h, true),
    ensures
        g2.keeps(g1),
{
    assert forall|l: int, gx: int, gy: int|
        0 <= l < g1.num_layers && g1.inside(gx, gy) && g1.blocked(l, gx, gy) implies #[trigger] g2.blocked(l, gx, gy) by {
        assert(g2.blocked(l, gx, gy) == if h(l, gx, gy) { true } else { g1.blocked(l, gx, gy) });
    }
}

proof fn lemma_keeps_marked(g1: Grid, g2: Grid, p: Seq<(i32, i32, u8)>, m: int, cc: int)
    requires
        cells_marked(g1, p, m, cc),
        g2.keeps(g1),
        g2.same_frame(g1),
    ensures
        cells_marked(g2, p, m, cc),
{
    assert forall|x: int, gx: int, gy: int|
        0 <= x < m && 0 <= plane_of(p[x]) < g2.num_layers && g2.inside(gx, gy) && in_circle(
            p[x].0 as int,
            p[x].1 as int,
            cc,
            gx,
            gy,
        ) implies #[trigger] g2.blocked(plane_of(p[x]), gx, gy) by {
        assert(g1.blocked(plane_of(p[x]), gx, gy));
    }
}

proof fn lemma_keeps_paths_marked(g1: Grid, g2: Grid, paths: Seq<Seq<(i32, i32, u8)>>, cc: int)
    requires
        paths_marked(g1, paths, cc),
        g2.keeps(g1),
        g2.same_frame(g1),
    ensures
        paths_marked(g2, paths, cc),
{
    assert forall|j: int| 0 <= j < paths.len() implies #[trigger] cells_marked(g2, paths[j], paths[j].len() as int, cc) by {
        assert(cells_marked(g1, paths[j], paths[j].len() as int, cc));
        lemma_keeps_marked(g1, g2, paths[j], paths[j].len() as int, cc);
    }
}

/// Marking the circle around one more cell of a path marks it.
proof fn lemma_mark_extends(g1: Grid, g2: Grid, p: Seq<(i32, i32, u8)>, m: int, cc: int)
    requires
        0 <= m < p.len(),
        cells_marked(g1, p, m, cc),
        g2.same_frame(g1),
        g2.fills(g1, circle_hit(plane_of(p[m]), p[m].0 as int, p[m].1 as int, cc), true),
    ensures
        cells_marked(g2, p, m + 1, cc),
{
    lemma_fill_true_keeps(g1, g2, circle_hit(plane_of(p[m]), p[m].0 as int, p[m].1 as int, cc));
    assert forall|x: int, gx: int, gy: int|
        0 <= x < m + 1 && 0 <= plane_of(p[x]) < g2.num_layers && g2.inside(gx, gy) && in_circle(
            p[x].0 as int,
            p[x].1 as int,
            cc,
            gx,
            gy,
        ) implies #[trigger] g2.blocked(plane_of(p[x]), gx, gy) by {
        if x < m {
            assert(g1.blocked(plane_of(p[x]), gx, gy));
        } else {
            assert(circle_hit(plane_of(p[m]), p[m].0 as int, p[m].1 as int, cc)(plane_of(p[x]), gx, gy));
        }
    }
}

proof fn lemma_keeps_outside_step(g0: Grid, g1: Grid, g2: Grid, hit: spec_fn(int, int, int) -> bool)
    requires
        g1.keeps_outside(g0, hit),
        g2.keeps(g1),
        g1.same_frame(g0),
    ensures
        g2.keeps_outside(g0, hit),
{
    assert forall|l: int, gx: int, gy: int|
        0 <= l < g0.num_layers && g0.inside(gx, gy) && g0.blocked(l, gx, gy) && !hit(l, gx, gy) implies #[trigger] g2.blocked(
        l,
        gx,
        gy,
    ) by {
        assert(g1.blocked(l, gx, gy));
    }
}

/// The via spots of a path are those of its cells.
proof fn lemma_via_spots_cells(grid: &Grid, p: Seq<State>, n: int)
    requires
        grid.wf(),
        0 <= n <= p.len(),
    ensures
        via_spots(grid, p, n) == cell_vias(grid.frame(), path_cells(p), n),
    decreases n,
{
    if n > 1 {
        lemma_via_spots_cells(grid, p, n - 1);
        let q = path_cells(p);
        assert(q[n - 1] == (p[n - 1].gx, p[n - 1].gy, p[n - 1].layer));
        assert(q[n - 2] == (p[n - 2].gx, p[n - 2].gy, p[n - 2].layer));
        assert(grid.center(p[n - 2]) == frame_center(grid.frame(), q[n - 2].0 as int, q[n - 2].1 as int));
    }
}

/// The vias of one more path follow those of the paths before.
proof fn lemma_vias_of_push(f: (int, int, int, int, int), paths: Seq<Seq<(i32, i32, u8)>>, p: Seq<(i32, i32, u8)>)
    ensures
        vias_of(f, paths.push(p)) == vias_of(f, paths) + cell_vias(f, p, p.len() as int),
{
    assert(paths.push(p).drop_last() =~= paths);
}

proof fn lemma_vias_append(
    v1: Seq<RoutedVia>,
    v2: Seq<RoutedVia>,
    s1: Seq<(i64, i64)>,
    s2: Seq<(i64, i64)>,
    net: Seq<char>,
)
    requires
        vias_are_spots(v1, s1, net),
        vias_are_spots(v2, s2, net),
    ensures
        vias_are_spots(v1 + v2, s1 + s2, net),
{
    assert forall|k: int| 0 <= k < (v1 + v2).len() implies (#[trigger] (v1 + v2)[k]).net_name@ == net && (v1
        + v2)[k].padstack_name@ == "via"@ && ((v1 + v2)[k].x, (v1 + v2)[k].y) == (s1 + s2)[k] by {
        if k < v1.len() {
            assert((v1 + v2)[k] == v1[k] && (s1 + s2)[k] == s1[k]);
        } else {
            assert((v1 + v2)[k] == v2[k - v1.len()] && (s1 + s2)[k] == s2[k - v1.len()]);
        }
    }
}

proof fn lemma_cell_runs(grid: &Grid, p: Seq<State>, i: int, seg: Seq<(i64, i64)>, cur: u8)
    requires
        grid.wf(),
    ensures
        seg_runs(grid, p, i, seg, cur) == cell_runs(grid.frame(), path_cells(p), i, seg, cur),
    decreases p.len() - i,
{
    let f = grid.frame();
    let q = path_cells(p);
    if 1 <= i < p.len() {
        assert(q[i] == (p[i].gx, p[i].gy, p[i].layer));
        assert(q[i - 1] == (p[i - 1].gx, p[i - 1].gy, p[i - 1].layer));
        assert(grid.center(p[i]) == frame_center(f, q[i].0 as int, q[i].1 as int));
        assert(grid.center(p[i - 1]) == frame_center(f, q[i - 1].0 as int, q[i - 1].1 as int));
        if p[i].layer != cur {
            lemma_cell_runs(grid, p, i + 1, seq![grid.center(p[i - 1]), grid.center(p[i])], p[i].layer);
        } else {
            lemma_cell_runs(grid, p, i + 1, seg.push(grid.center(p[i])), cur);
        }
    }
}

/// The wires of a path are the runs of its cells.
proof fn lemma_wire_runs_cells(grid: &Grid, p: Seq<State>)
    requires
        grid.wf(),
    ensures
        wire_runs(grid, p) == path_runs(grid.frame(), path_cells(p)),
{
    if p.len() > 0 {
        let q = path_cells(p);
        assert(q[0] == (p[0].gx, p[0].gy, p[0].layer));
        assert(grid.center(p[0]) == frame_center(grid.frame(), q[0].0 as int, q[0].1 as int));
        lemma_cell_runs(grid, p, 1, seq![grid.center(p[0])], p[0].layer);
    }
}

/// Copper laid before path `j` stays so for a later path and for longer
/// lists that agree on the paths before `j`.
proof fn lemma_joined_mono(
    f: (int, int, int, int, int),
    pads: Seq<(i64, i64)>,
    paths: Seq<Seq<(i32, i32, u8)>>,
    reached: Seq<int>,
    paths2: Seq<Seq<(i32, i32, u8)>>,
    reached2: Seq<int>,
    j: int,
    j2: int,
    c: (int, int, int),
)
    requires
        0 <= j <= j2,
        j <= paths.len() && j <= reached.len() && j <= paths2.len() && j <= reached2.len(),
        forall|jj: int| 0 <= jj < j ==> paths2[jj] == paths[jj] && reached2[jj] == reached[jj],
        joined_before(f, pads, paths, reached, j, c),
    ensures
        joined_before(f, pads, paths2, reached2, j2, c),
{
    if (c.0, c.1) == cell_of(f, pads[0]) {
    } else if exists|jj: int, x: int|
        #![trigger paths[jj][x]]
        0 <= jj < j && 0 <= x < paths[jj].len() && cell3(paths[jj][x]) == c {
        let (jj, x) = choose|jj: int, x: int|
            #![trigger paths[jj][x]]
            0 <= jj < j && 0 <= x < paths[jj].len() && cell3(paths[jj][x]) == c;
        assert(paths2[jj] == paths[jj]);
        assert(cell3(paths2[jj][x]) == c);
    } else {
        let jj = choose|jj: int| 0 <= jj < j && (c.0, c.1) == cell_of(f, pads[#[trigger] reached[jj]]);
        assert(reached2[jj] == reached[jj]);
    }
}

/// A cell on the cell of the pad the last path reached is copper of the net.
proof fn lemma_target_cell_joined(
    f: (int, int, int, int, int),
    pads: Seq<(i64, i64)>,
    paths: Seq<Seq<(i32, i32, u8)>>,
    reached: Seq<int>,
    cells0: Seq<(i32, i32, usize)>,
    cells1: Seq<(i32, i32, usize)>,
    tgx: int,
    tgy: int,
    l: usize,
)
    requires
        reached.len() >= 1,
        paths.len() == reached.len(),
        (tgx, tgy) == cell_of(f, pads[reached.last()]),
        forall|x: int|
            0 <= x < cells0.len() ==> joined_before(f, pads, paths, reached, paths.len() as int, cell_key(#[trigger] cells0[x])),
        cells1 == cells0 || (cells1 == cells0.push((tgx as i32, tgy as i32, l)) && 0 <= tgx < 0x8000_0000 && 0
            <= tgy < 0x8000_0000),
    ensures
        forall|x: int|
            0 <= x < cells1.len() ==> joined_before(f, pads, paths, reached, paths.len() as int, cell_key(#[trigger] cells1[x])),
{
    if cells1 != cells0 {
        assert forall|x: int| 0 <= x < cells1.len() implies joined_before(
            f,
            pads,
            paths,
            reached,
            paths.len() as int,
            cell_key(#[trigger] cells1[x]),
        ) by {
            if x < cells0.len() {
                assert(cells1[x] == cells0[x]);
            } else {
                let jj = reached.len() - 1;
                assert(cells1[x] == (tgx as i32, tgy as i32, l));
                assert((cell_key(cells1[x]).0, cell_key(cells1[x]).1) == cell_of(f, pads[reached[jj]]));
            }
        }
    }
}

/// The runs of one more path follow those of the paths before.
proof fn lemma_runs_of_push(f: (int, int, int, int, int), paths: Seq<Seq<(i32, i32, u8)>>, p: Seq<(i32, i32, u8)>)
    ensures
        runs_of(f, paths.push(p)) == runs_of(f, paths) + path_runs(f, p),
{
    assert(paths.push(p).drop_last() =~= paths);
}

/// Wires of runs, followed by wires of more runs, are wires of both.
proof fn lemma_wires_are_runs_append(
    d: DesignView,
    w1: Seq<RoutedWire>,
    w2: Seq<RoutedWire>,
    r1: Seq<(u8, Seq<(i64, i64)>)>,
    r2: Seq<(u8, Seq<(i64, i64)>)>,
    net: Seq<char>,
    width: int,
)
    requires
        wires_are_runs(d, w1, r1, net, width),
        wires_are_runs(d, w2, r2, net, width),
    ensures
        wires_are_runs(d, w1 + w2, r1 + r2, net, width),
{
    assert forall|k: int| 0 <= k < (w1 + w2).len() implies wire_is_run(d, #[trigger] (w1 + w2)[k], (r1 + r2)[k], net, width) by {
        if k < w1.len() {
            assert((w1 + w2)[k] == w1[k] && (r1 + r2)[k] == r1[k]);
        } else {
            assert((w1 + w2)[k] == w2[k - w1.len()] && (r1 + r2)[k] == r2[k - w1.len()]);
        }
    }
}

/// Turns a path of cells into wires, one per run on a layer, with the
/// straight-through points dropped, and a via at each change of layer.
fn path_to_wires_and_vias(
    path: &Vec<State>,
    grid: &Grid,
    net_name: &str,
    trace_width: i64,
    design: &DsnDesign,
) -> (r: (Vec<RoutedWire>, Vec<RoutedVia>))
    requires
        grid.wf(),
        forall|i: int|
            0 <= i < path@.len() ==> grid.inside((#[trigger] path@[i]).gx as int, path@[i].gy as int),
    ensures
        forall|k: int|
            0 <= k < r.0@.len() ==> wire_fits(
                design@,
                #[trigger] r.0@[k],
                net_name@,
                trace_width as int,
                path_layers(path@),
            ),
        forall|k: int| 0 <= k < r.1@.len() ==> via_fits(#[trigger] r.1@[k], net_name@),
        r.1@.len() == via_spots(grid, path@, path@.len() as int).len(),
        forall|k: int|
            0 <= k < r.1@.len() ==> ((#[trigger] r.1@[k]).x, r.1@[k].y) == via_spots(
                grid,
                path@,
                path@.len() as int,
            )[k],
        forall|k: int|
            0 <= k < r.0@.len() - 1 ==> (#[trigger] r.0@[k]).points@.last() == r.0@[k + 1].points@[0],
        forall|k: int| 0 <= k < r.0@.len() ==> wire_in_frame(grid.frame(), #[trigger] r.0@[k]),
        forall|k: int| 0 <= k < r.1@.len() ==> via_in_frame(grid.frame(), #[trigger] r.1@[k]),
        r.0@.len() == wire_runs(grid, path@).len(),
        forall|k: int|
            0 <= k < r.0@.len() ==> wire_is_run(design@, #[trigger] r.0@[k], wire_runs(grid, path@)[k], net_name@, trace_width as int),
{
    let mut wires: Vec<RoutedWire> = Vec::new();
    let mut vias: Vec<RoutedVia> = Vec::new();
    let ghost layers = path_layers(path@);
    if path.len() == 0 {
        return (wires, vias);
    }
    proof {
        reveal_strlit("via");
    }
    let mut current_layer: u8 = path[0].layer;
    let mut seg: Vec<(i64, i64)> = Vec::new();
    seg.push(grid.grid_to_dsn_center(path[0].gx as i64, path[0].gy as i64));
    let ghost mut done: Seq<(u8, Seq<(i64, i64)>)> = Seq::empty();
    proof {
        assert(seg@ =~= seq![grid.center(path@[0])]);
        assert(done + seg_runs(grid, path@, 1, seg@, current_layer) =~= wire_runs(grid, path@));
    }
    proof {
        assert(seg@.last() == grid.center(path@[0]));
        lemma_center_in_cells(grid.offset_x as int, grid.grid_size as int, grid.width as int, path@[0].gx as int);
        lemma_center_in_cells(grid.offset_y as int, grid.grid_size as int, grid.height as int, path@[0].gy as int);
        assert(in_frame(grid.frame(), seg@[0]));
    }
    let mut i: usize = 1;
    while i < path.len()
        invariant
            grid.wf(),
            forall|j: int|
                0 <= j < path@.len() ==> grid.inside((#[trigger] path@[j]).gx as int, path@[j].gy as int),
            layers == path_layers(path@),
            1 <= i <= path@.len(),
            current_layer == path@[i - 1].layer,
            seg@.len() >= 1,
            forall|j: int| 0 <= j < seg@.len() ==> point_ok(#[trigger] seg@[j]),
            forall|k: int|
                0 <= k < wires@.len() ==> wire_fits(
                    design@,
                    #[trigger] wires@[k],
                    net_name@,
                    trace_width as int,
                    layers,
                ),
            forall|k: int| 0 <= k < vias@.len() ==> via_fits(#[trigger] vias@[k], net_name@),
            vias@.len() == via_spots(grid, path@, i as int).len(),
            forall|k: int|
                0 <= k < vias@.len() ==> ((#[trigger] vias@[k]).x, vias@[k].y) == via_spots(
                    grid,
                    path@,
                    i as int,
                )[k],
            seg@.last() == grid.center(path@[i - 1]),
            seg@.len() == 1 ==> wires@.len() == 0,
            wires@.len() > 0 ==> wires@.last().points@.last() == seg@[0],
            forall|k: int|
                0 <= k < wires@.len() - 1 ==> (#[trigger] wires@[k]).points@.last() == wires@[k + 1].points@[0],
            forall|j: int| 0 <= j < seg@.len() ==> in_frame(grid.frame(), #[trigger] seg@[j]),
            forall|k: int| 0 <= k < wires@.len() ==> wire_in_frame(grid.frame(), #[trigger] wires@[k]),
            forall|k: int| 0 <= k < vias@.len() ==> via_in_frame(grid.frame(), #[trigger] vias@[k]),
            done + seg_runs(grid, path@, i as int, seg@, current_layer) == wire_runs(grid, path@),
            done.len() == wires@.len(),
            forall|k: int|
                0 <= k < wires@.len() ==> wire_is_run(design@, #[trigger] wires@[k], done[k], net_name@, trace_width as int),
        decreases path@.len() - i,
    {
        let s = path[i];
        let (px, py) = grid.grid_to_dsn_center(s.gx as i64, s.gy as i64);
        let ghost w_before = wires@;
        let ghost seg_before = seg@;
        proof {
            assert((px, py) == grid.center(path@[i as int]));
            lemma_center_in_cells(grid.offset_x as int, grid.grid_size as int, grid.width as int, path@[i as int].gx as int);
            lemma_center_in_cells(grid.offset_y as int, grid.grid_size as int, grid.height as int, path@[i as int].gy as int);
            assert(in_frame(grid.frame(), (px, py)));
        }
        let ghost done0 = done;
        let ghost wires0 = wires@;
        if s.layer != current_layer {
            proof {
                assert(seg_runs(grid, path@, i as int, seg_before, current_layer) == (if seg_before.len() >= 2 {
                    seq![(current_layer, merged(seg_before))]
                } else {
                    Seq::empty()
                }) + seg_runs(grid, path@, i + 1, seq![grid.center(path@[i - 1]), grid.center(path@[i as int])], s.layer));
            }
            if seg.len() >= 2 {
                let name = layer_name(design, current_layer as usize);
                let w = RoutedWire {
                    net_name: net_name.to_owned(),
                    layer: name,
                    width: trace_width,
                    points: merge_collinear(seg),
                };
                proof {
                    assert(layers.contains(current_layer as usize));
                    lemma_merged_within(seg@);
                    assert forall|j: int| 0 <= j < w.points@.len() implies in_frame(grid.frame(), #[trigger] w.points@[j]) by {
                        assert(seg@.contains(w.points@[j]));
                    }
                }
                wires.push(w);
                proof {
                    done = done.push((current_layer, merged(seg_before)));
                    assert forall|k: int| 0 <= k < wires@.len() implies wire_is_run(design@, #[trigger] wires@[k], done[k], net_name@, trace_width as int) by {
                        if k < wires0.len() {
                            assert(wires@[k] == wires0[k]);
                        }
                    }
                    assert forall|k: int| 0 <= k < wires@.len() - 1 implies (#[trigger] wires@[k]).points@.last()
                        == wires@[k + 1].points@[0] by {
                        if k < w_before.len() - 1 {
                            assert(wires@[k] == w_before[k] && wires@[k + 1] == w_before[k + 1]);
                        } else {
                            assert(wires@[k] == w_before.last());
                        }
                    }
                }
            }
            let prev = path[i - 1];
            let (vx, vy) = grid.grid_to_dsn_center(prev.gx as i64, prev.gy as i64);
            let v = RoutedVia { net_name: net_name.to_owned(), padstack_name: "via".to_owned(), x: vx, y: vy };
            vias.push(v);
            proof {
                assert((vx, vy) == grid.center(path@[i - 1]));
                assert((vx, vy) == seg_before.last());
                assert(in_frame(grid.frame(), seg_before[seg_before.len() - 1]));
            }
            seg = Vec::new();
            seg.push((vx, vy));
            seg.push((px, py));
            proof {
                assert(seg@ =~= seq![grid.center(path@[i - 1]), grid.center(path@[i as int])]);
                if seg_before.len() >= 2 {
                    assert(done =~= done0.push((current_layer, merged(seg_before))));
                    assert(done + seg_runs(grid, path@, i + 1, seg@, s.layer) =~= done0 + (seq![(current_layer, merged(seg_before))] + seg_runs(grid, path@, i + 1, seg@, s.layer)));
                } else {
                    assert(done == done0);
                    assert(done + seg_runs(grid, path@, i + 1, seg@, s.layer) =~= done0 + (Seq::<(u8, Seq<(i64, i64)>)>::empty() + seg_runs(grid, path@, i + 1, seg@, s.layer)));
                }
            }
            current_layer = s.layer;
        } else {
            seg.push((px, py));
            proof {
                assert(seg@ == seg_before.push(grid.center(path@[i as int])));
            }
        }
        i = i + 1;
    }
    if seg.len() >= 2 {
        let name = layer_name(design, current_layer as usize);
        let w = RoutedWire {
            net_name: net_name.to_owned(),
            layer: name,
            width: trace_width,
            points: merge_collinear(seg),
        };
        proof {
            assert(layers.contains(current_layer as usize));
            lemma_merged_within(seg@);
            assert forall|j: int| 0 <= j < w.points@.len() implies in_frame(grid.frame(), #[trigger] w.points@[j]) by {
                assert(seg@.contains(w.points@[j]));
            }
        }
        let ghost w_before = wires@;
        wires.push(w);
        proof {
            assert(seg_runs(grid, path@, i as int, seg@, current_layer) == seq![(current_layer, merged(seg@))]);
            done = done.push((current_layer, merged(seg@)));
            assert forall|k: int| 0 <= k < wires@.len() implies wire_is_run(design@, #[trigger] wires@[k], done[k], net_name@, trace_width as int) by {
                if k < w_before.len() {
                    assert(wires@[k] == w_before[k]);
                }
            }
            assert(done =~= wire_runs(grid, path@));
        }
        proof {
            assert forall|k: int| 0 <= k < wires@.len() - 1 implies (#[trigger] wires@[k]).points@.last()
                == wires@[k + 1].points@[0] by {
                if k < w_before.len() - 1 {
                    assert(wires@[k] == w_before[k] && wires@[k + 1] == w_before[k + 1]);
                } else {
                    assert(wires@[k] == w_before.last());
                }
            }
        }
    }
    proof {
        if seg@.len() < 2 {
            assert(seg_runs(grid, path@, i as int, seg@, current_layer) == Seq::<(u8, Seq<(i64, i64)>)>::empty());
            assert(done =~= wire_runs(grid, path@));
        }
    }
    (wires, vias)
}


// ─── the order of the nets ────────────────────────────────────────────────────

pub open spec fn names_view(v: Seq<String>) -> Seq<Seq<char>> {
    v.map_values(|s: String| s@)
}

/// Position of the first name (from `i` on) equal to `name`.
pub open spec fn name_position(names: Seq<Seq<char>>, name: Seq<char>, i: int) -> Option<int>
    decreases names.len() - i,
{
    if i < 0 || i >= names.len() {
        None
    } else if names[i] == name {
        Some(i)
    } else {
        name_position(names, name, i + 1)
    }
}

/// Whether net `i` is routed before net `j`: the nets named in `pri` first,
/// in the order of their first mention there; then the others, those with
/// more pins first; ties in the design's order.
pub open spec fn routed_before(d: DesignView, pri: Seq<Seq<char>>, i: int, j: int) -> bool {
    let a = name_position(pri, d.nets[i].name, 0);
    let b = name_position(pri, d.nets[j].name, 0);
    match a {
        Some(x) => match b {
            Some(y) => x < y || (x == y && i < j),
            None => true,
        },
        None => match b {
            Some(_) => false,
            None => d.nets[i].pins.len() > d.nets[j].pins.len() || (d.nets[i].pins.len()
                == d.nets[j].pins.len() && i < j),
        },
    }
}

/// The routing order: every net once, each before those it is routed before.
pub open spec fn is_net_order(d: DesignView, pri: Seq<Seq<char>>, order: Seq<usize>) -> bool {
    &&& order.len() == d.nets.len()
    &&& forall|k: int| 0 <= k < order.len() ==> #[trigger] order[k] < d.nets.len()
    &&& forall|i: usize| i < d.nets.len() ==> #[trigger] order.contains(i)
    &&& forall|a: int, b: int|
        0 <= a < b < order.len() ==> routed_before(d, pri, #[trigger] order[a] as int, #[trigger] order[b] as int)
}

proof fn lemma_name_position(names: Seq<Seq<char>>, name: Seq<char>, i: int)
    requires
        0 <= i,
    ensures
        name_position(names, name, i) matches Some(k) ==> i <= k < names.len() && names[k] == name,
    decreases names.len() - i,
{
    if i < names.len() {
        lemma_name_position(names, name, i + 1);
    }
}

proof fn lemma_before_total(d: DesignView, pri: Seq<Seq<char>>, i: int, j: int)
    requires
        i != j,
    ensures
        routed_before(d, pri, i, j) || routed_before(d, pri, j, i),
        !(routed_before(d, pri, i, j) && routed_before(d, pri, j, i)),
{
}

proof fn lemma_before_trans(d: DesignView, pri: Seq<Seq<char>>, i: int, j: int, k: int)
    requires
        routed_before(d, pri, i, j),
        routed_before(d, pri, j, k),
    ensures
        routed_before(d, pri, i, k),
{
}

/// The position of the first of `names` equal to `name`.
fn find_name(names: &Vec<String>, name: &str) -> (r: Option<usize>)
    ensures
        match name_position(names_view(names@), name@, 0) {
            Some(k) => r == Some(k as usize),
            None => r is None,
        },
{
    let ghost nv = names_view(names@);
    let mut k: usize = 0;
    while k < names.len()
        invariant
            nv == names_view(names@),
            k <= names.len(),
            name_position(nv, name@, 0) == name_position(nv, name@, k as int),
        decreases names.len() - k,
    {
        if str_eq(names[k].as_str(), name) {
            return Some(k);
        }
        k = k + 1;
    }
    None
}

fn before_exec(pos: &Vec<Option<usize>>, pins: &Vec<usize>, i: usize, j: usize, Ghost(d): Ghost<DesignView>, Ghost(pri): Ghost<Seq<Seq<char>>>) -> (r: bool)
    requires
        pri.len() <= usize::MAX,
        pos@.len() == d.nets.len(),
        pins@.len() == d.nets.len(),
        i < d.nets.len(),
        j < d.nets.len(),
        forall|k: int|
            0 <= k < d.nets.len() ==> match name_position(pri, d.nets[k].name, 0) {
                Some(x) => #[trigger] pos@[k] == Some(x as usize),
                None => pos@[k] is None,
            },
        forall|k: int| 0 <= k < d.nets.len() ==> #[trigger] pins@[k] == d.nets[k].pins.len(),
    ensures
        r == routed_before(d, pri, i as int, j as int),
{
    let a = pos[i];
    let b = pos[j];
    proof {
        assert(pos@[i as int] == a && pos@[j as int] == b);
        lemma_name_position(pri, d.nets[i as int].name, 0);
        lemma_name_position(pri, d.nets[j as int].name, 0);
        assert(match name_position(pri, d.nets[i as int].name, 0) {
            Some(x) => pos@[i as int] == Some(x as usize),
            None => pos@[i as int] is None,
        });
        assert(match name_position(pri, d.nets[j as int].name, 0) {
            Some(x) => pos@[j as int] == Some(x as usize),
            None => pos@[j as int] is None,
        });
    }
    match a {
        Some(x) => match b {
            Some(y) => x < y || (x == y && i < j),
            None => true,
        },
        None => match b {
            Some(_) => false,
            None => pins[i] > pins[j] || (pins[i] == pins[j] && i < j),
        },
    }
}

/// The order in which the nets are routed (see [`routed_before`]).
fn net_order(design: &DsnDesign, priority_nets: &Vec<String>) -> (r: Vec<usize>)
    ensures
        is_net_order(design@, names_view(priority_nets@), r@),
{
    let ghost d = design@;
    let ghost pri = names_view(priority_nets@);
    let n = design.nets.len();
    let mut pos: Vec<Option<usize>> = Vec::new();
    let mut pins: Vec<usize> = Vec::new();
    let mut i: usize = 0;
    while i < n
        invariant
            n == d.nets.len(),
            d == design@,
            pri == names_view(priority_nets@),
            i <= n,
            pos@.len() == i,
            pins@.len() == i,
            forall|k: int|
                0 <= k < i ==> match name_position(pri, d.nets[k].name, 0) {
                    Some(x) => #[trigger] pos@[k] == Some(x as usize),
                    None => pos@[k] is None,
                },
            forall|k: int| 0 <= k < i ==> #[trigger] pins@[k] == d.nets[k].pins.len(),
        decreases n - i,
    {
        proof {
            assert(d.nets[i as int] == design.nets@[i as int]@);
        }
        pos.push(find_name(priority_nets, design.nets[i].name.as_str()));
        pins.push(design.nets[i].pins.len());
        i = i + 1;
    }
    let mut order: Vec<usize> = Vec::new();
    let mut i: usize = 0;
    assert(pri.len() == priority_nets.len());
    while i < n
        invariant
            n == d.nets.len(),
            pri.len() <= usize::MAX,
            i <= n,
            pos@.len() == n,
            pins@.len() == n,
            forall|k: int|
                0 <= k < n ==> match name_position(pri, d.nets[k].name, 0) {
                    Some(x) => #[trigger] pos@[k] == Some(x as usize),
                    None => pos@[k] is None,
                },
            forall|k: int| 0 <= k < n ==> #[trigger] pins@[k] == d.nets[k].pins.len(),
            order@.len() == i,
            forall|k: int| 0 <= k < order@.len() ==> #[trigger] order@[k] < i,
            forall|x: usize| x < i ==> #[trigger] order@.contains(x),
            forall|a: int, b: int|
                0 <= a < b < order@.len() ==> routed_before(d, pri, #[trigger] order@[a] as int, #[trigger] order@[b] as int),
        decreases n - i,
    {
        let mut p: usize = 0;
        while p < order.len() && !before_exec(&pos, &pins, i, order[p], Ghost(d), Ghost(pri))
            invariant
                n == d.nets.len(),
                pri.len() <= usize::MAX,
                i < n,
                pos@.len() == n,
                pins@.len() == n,
                forall|k: int|
                    0 <= k < n ==> match name_position(pri, d.nets[k].name, 0) {
                        Some(x) => #[trigger] pos@[k] == Some(x as usize),
                        None => pos@[k] is None,
                    },
                forall|k: int| 0 <= k < n ==> #[trigger] pins@[k] == d.nets[k].pins.len(),
                forall|k: int| 0 <= k < order@.len() ==> #[trigger] order@[k] < i,
                p <= order@.len(),
                forall|a: int| 0 <= a < p ==> !routed_before(d, pri, i as int, #[trigger] order@[a] as int),
            decreases order@.len() - p,
        {
            p = p + 1;
        }
        let ghost o0 = order@;
        order.insert(p, i);
        proof {
            assert forall|a: int, b: int|
                0 <= a < b < order@.len() implies routed_before(d, pri, #[trigger] order@[a] as int, #[trigger] order@[b] as int) by {
                if b < p {
                    assert(order@[a] == o0[a] && order@[b] == o0[b]);
                } else if b == p {
                    assert(order@[a] == o0[a]);
                    lemma_before_total(d, pri, i as int, o0[a] as int);
                } else if a == p {
                    assert(order@[b] == o0[b - 1]);
                    if b - 1 > p {
                        lemma_before_trans(d, pri, i as int, o0[p as int] as int, o0[b - 1] as int);
                    }
                } else if a < p {
                    assert(order@[a] == o0[a] && order@[b] == o0[b - 1]);
                } else {
                    assert(order@[a] == o0[a - 1] && order@[b] == o0[b - 1]);
                }
            }
            assert forall|x: usize| x < i + 1 implies #[trigger] order@.contains(x) by {
                if x == i {
                    assert(order@[p as int] == i);
                } else {
                    assert(o0.contains(x));
                    let k = o0.index_of(x);
                    if k < p {
                        assert(order@[k] == x);
                    } else {
                        assert(order@[k + 1] == x);
                    }
                }
            }
            assert forall|k: int| 0 <= k < order@.len() implies #[trigger] order@[k] < i + 1 by {
                if k < p {
                    assert(order@[k] == o0[k]);
                } else if k > p {
                    assert(order@[k] == o0[k - 1]);
                }
            }
        }
        i = i + 1;
    }
    order
}


// ─── routing one net ──────────────────────────────────────────────────────────

/// The grid planes a route can use: plane 0 and the planes of the design's
/// layers.
pub open spec fn planes(d: DesignView) -> Set<usize> {
    Set::new(|l: usize| l == 0 || exists|i: int| 0 <= i < d.layers.len() && #[trigger] d.layers[i].index == l)
}

proof fn lemma_planes_signal(d: DesignView)
    ensures
        forall|k: int| 0 <= k < signal_layers_of(d.layers).len() ==> planes(d).contains(
            #[trigger] signal_layers_of(d.layers)[k],
        ),
{
    lemma_signal_layers(d.layers);
    assert forall|k: int| 0 <= k < signal_layers_of(d.layers).len() implies planes(d).contains(
        #[trigger] signal_layers_of(d.layers)[k],
    ) by {
        let i = choose|i: int| 0 <= i < d.layers.len() && d.layers[i].index == signal_layers_of(d.layers)[k];
        assert(d.layers[i].index == signal_layers_of(d.layers)[k]);
    }
}

proof fn lemma_layer_index_plane(d: DesignView, name: Seq<char>)
    ensures
        planes(d).contains(layer_index_of(d, name, signal_layers_of(d.layers))),
{
    lemma_planes_signal(d);
    lemma_layer_named(d.layers, name, 0);
    if let Some(i) = layer_named(d.layers, name, 0) {
        assert(d.layers[i].index == layer_index_of(d, name, signal_layers_of(d.layers)));
    } else if signal_layers_of(d.layers).len() > 0 {
        assert(planes(d).contains(signal_layers_of(d.layers)[0]));
    }
}

/// Every cell of a search path lies on a plane of `s` when its start cells
/// and the signal layers do.
proof fn lemma_path_planes(
    grid: &Grid,
    ws: &BfsWorkspace,
    starts: Seq<(i32, i32, usize)>,
    sig: Seq<usize>,
    p: Seq<State>,
    s: Set<usize>,
    i: int,
)
    requires
        valid_path(grid, ws, starts, sig, p),
        forall|k: int| 0 <= k < starts.len() ==> s.contains((#[trigger] starts[k]).2),
        forall|k: int| 0 <= k < sig.len() ==> s.contains(#[trigger] sig[k]),
        0 <= i < p.len(),
    ensures
        s.contains(p[i].layer as usize),
    decreases i,
{
    if i == 0 {
        let c = (p[0].gx, p[0].gy, p[0].layer as usize);
        assert(starts.contains(c));
        let k = starts.index_of(c);
        assert(s.contains(starts[k].2));
    } else {
        lemma_path_planes(grid, ws, starts, sig, p, s, i - 1);
        assert(step_ok(p[i - 1], p[i], sig));
        if p[i].layer != p[i - 1].layer {
            let k = sig.index_of(p[i].layer as usize);
            assert(s.contains(sig[k]));
        }
    }
}

spec fn layers_bounded(d: DesignView) -> bool {
    forall|i: int| 0 <= i < d.layers.len() ==> (#[trigger] d.layers[i]).index < layer_count(d)
}

fn contains_index(v: &Vec<usize>, x: usize) -> (r: bool)
    ensures
        r == v@.contains(x),
{
    let mut k: usize = 0;
    while k < v.len()
        invariant
            k <= v.len(),
            forall|j: int| 0 <= j < k ==> v@[j] != x,
        decreases v.len() - k,
    {
        if v[k] == x {
            return true;
        }
        k = k + 1;
    }
    false
}

/// Appends every entry of `from` to `to`.
fn append_all(to: &mut Vec<usize>, from: &Vec<usize>)
    ensures
        final(to)@ == old(to)@ + from@,
{
    let mut k: usize = 0;
    while k < from.len()
        invariant
            k <= from.len(),
            to@ == old(to)@ + from@.take(k as int),
        decreases from.len() - k,
    {
        to.push(from[k]);
        proof {
            assert(from@.take(k + 1) =~= from@.take(k as int).push(from@[k as int]));
        }
        k = k + 1;
    }
    proof {
        assert(from@.take(from@.len() as int) =~= from@);
    }
}

/// The planes that shapes `t..` of a padstack add to `acc`: each named layer
/// not yet in it, until a `*.Cu` shape, which adds every signal layer.
pub open spec fn planes_from(d: DesignView, shapes: Seq<PadShapeView>, t: int, acc: Seq<usize>, sig: Seq<usize>) -> Seq<usize>
    decreases shapes.len() - t,
{
    if t < 0 || t >= shapes.len() {
        acc
    } else if shape_layer(shapes[t]) == "*.Cu"@ {
        acc + sig
    } else {
        let li = layer_index_of(d, shape_layer(shapes[t]), sig);
        planes_from(d, shapes, t + 1, if acc.contains(li) { acc } else { acc.push(li) }, sig)
    }
}

/// The planes of the pads of padstack `j`; every signal layer where its
/// shapes give none.
pub open spec fn padstack_planes(d: DesignView, j: int, sig: Seq<usize>) -> Seq<usize> {
    let r = planes_from(d, d.padstacks[j].shapes, 0, Seq::empty(), sig);
    if r.len() == 0 {
        sig
    } else {
        r
    }
}

/// The padstack of the pad of pin `pin` of component `comp`, where each
/// lookup succeeds.
pub open spec fn pad_padstack(d: DesignView, comp: Seq<char>, pin: Seq<char>) -> Option<int> {
    match find_place(d.components, comp, 0) {
        None => None,
        Some((c, _)) => match image_of_component(d, c) {
            None => None,
            Some(ii) => match pin_index(d.images[ii].pins, pin, 0) {
                None => None,
                Some(k) => padstack_index(d.padstacks, d.images[ii].pins[k].padstack_name),
            },
        },
    }
}

/// A padstack goes through the board: more than one shape, or one on `*.Cu`.
pub open spec fn shapes_through(shapes: Seq<PadShapeView>) -> bool {
    shapes.len() > 1 || exists|t: int| 0 <= t < shapes.len() && shape_layer(#[trigger] shapes[t]) == "*.Cu"@
}

/// The planes of a padstack's pads: each layer its shapes name, in order and
/// once each, up to the first `*.Cu` shape, which adds every signal layer;
/// every signal layer where that gives none.
fn pad_layers(design: &DsnDesign, j: usize, signal_layers: &Vec<usize>) -> (r: Vec<usize>)
    requires
        j < design.padstacks@.len(),
        layers_bounded(design@),
        signal_layers@ == signal_layers_of(design@.layers),
    ensures
        forall|k: int| 0 <= k < r@.len() ==> #[trigger] r@[k] < layer_count(design@),
        r@ == padstack_planes(design@, j as int, signal_layers@),
{
    let ghost sv = design@.padstacks[j as int].shapes;
    proof {
        assert(design@.padstacks[j as int] == design.padstacks@[j as int]@);
    }
    proof {
        lemma_signal_bound(design@);
    }
    let shapes = &design.padstacks[j].shapes;
    let mut layers: Vec<usize> = Vec::new();
    let mut t: usize = 0;
    while t < shapes.len()
        invariant_except_break
            planes_from(design@, sv, 0, Seq::empty(), signal_layers@) == planes_from(design@, sv, t as int, layers@, signal_layers@),
        invariant
            j < design.padstacks@.len(),
            *shapes == design.padstacks@[j as int].shapes,
            t <= shapes.len(),
            layers_bounded(design@),
            signal_layers@ == signal_layers_of(design@.layers),
            forall|k: int| 0 <= k < signal_layers@.len() ==> #[trigger] signal_layers@[k] < layer_count(design@),
            forall|k: int| 0 <= k < layers@.len() ==> #[trigger] layers@[k] < layer_count(design@),
            sv == design@.padstacks[j as int].shapes,
            sv == shapes@.map_values(|s: PadShape| s@),
        ensures
            planes_from(design@, sv, 0, Seq::empty(), signal_layers@) == layers@,
        decreases shapes.len() - t,
    {
        let ln = shape_layer_exec(&shapes[t]);
        proof {
            assert(sv[t as int] == shapes@[t as int]@);
        }
        if str_eq(ln, "*.Cu") {
            let ghost l0 = layers@;
            append_all(&mut layers, signal_layers);
            proof {
                assert(planes_from(design@, sv, t as int, l0, signal_layers@) == l0 + signal_layers@);
            }
            proof {
                assert forall|k: int| 0 <= k < layers@.len() implies #[trigger] layers@[k] < layer_count(design@) by {
                    if k >= l0.len() {
                        assert(layers@[k] == signal_layers@[k - l0.len()]);
                    }
                }
            }
            break;
        }
        let li = layer_index(design, ln, signal_layers);
        proof {
            lemma_layer_index_bound(design@, ln@);
        }
        if !contains_index(&layers, li) {
            layers.push(li);
        }
        t = t + 1;
    }
    if layers.len() == 0 {
        append_all(&mut layers, signal_layers);
        proof {
            assert forall|k: int| 0 <= k < layers@.len() implies #[trigger] layers@[k] < layer_count(design@) by {
                assert(layers@[k] == signal_layers@[k]);
            }
        }
    }
    layers
}

/// Whether the pad of `pin_ref` goes through the board: its padstack has more
/// than one shape, or a shape on `*.Cu`. False when a lookup fails.
fn is_through_hole(design: &DsnDesign, pin_ref: &PinRef) -> (r: bool)
    ensures
        r == match pad_padstack(design@, pin_ref.component@, pin_ref.pin@) {
            None => false,
            Some(j) => shapes_through(design@.padstacks[j].shapes),
        },
{
    match find_placement(design, pin_ref.component.as_str()) {
        None => false,
        Some((c, _)) => {
            proof {
                assert(design@.components[c as int] == design.components@[c as int]@);
            }
            match find_image(&design.images, design.components[c].image_name.as_str()) {
                None => false,
                Some(ii) => {
                    let image = &design.images[ii];
                    proof {
                        assert(image_of_component(design@, c as int) == Some(ii as int));
                        assert(design@.images[ii as int] == image@);
                    }
                    match find_pin(&image.pins, pin_ref.pin.as_str()) {
                        None => false,
                        Some(k) => {
                            proof {
                                assert(design@.images[ii as int].pins[k as int] == image.pins@[k as int]@);
                            }
                            match find_padstack(&design.padstacks, image.pins[k].padstack_name.as_str()) {
                                None => false,
                                Some(j) => {
                                    let shapes = &design.padstacks[j].shapes;
                                    let ghost sv = design@.padstacks[j as int].shapes;
                                    proof {
                                        assert(pad_padstack(design@, pin_ref.component@, pin_ref.pin@) == Some(j as int));
                                        assert(design@.padstacks[j as int] == design.padstacks@[j as int]@);
                                        assert(sv == shapes@.map_values(|s: PadShape| s@));
                                    }
                                    if shapes.len() > 1 {
                                        proof {
                                            assert(sv.len() > 1);
                                            assert(shapes_through(sv));
                                        }
                                        return true;
                                    }
                                    let mut t: usize = 0;
                                    while t < shapes.len()
                                        invariant
                                            t <= shapes.len(),
                                            sv == shapes@.map_values(|s: PadShape| s@),
                                            forall|q: int| 0 <= q < t ==> shape_layer(#[trigger] sv[q]) != "*.Cu"@,
                                            pad_padstack(design@, pin_ref.component@, pin_ref.pin@) == Some(j as int),
                                            sv == design@.padstacks[j as int].shapes,
                                            shapes.len() <= 1,
                                        decreases shapes.len() - t,
                                    {
                                        if str_eq(shape_layer_exec(&shapes[t]), "*.Cu") {
                                            proof {
                                                assert(shape_layer(sv[t as int]) == "*.Cu"@);
                                            }
                                            return true;
                                        }
                                        proof {
                                            assert(shape_layer(sv[t as int]) != "*.Cu"@);
                                        }
                                        t = t + 1;
                                    }
                                    false
                                },
                            }
                        },
                    }
                },
            }
        },
    }
}

/// The obstacle of the pad of `pin_ref`: its cell, its planes and its radius.
/// None when the pad or its padstack cannot be found.
fn pad_obstacle(
    design: &DsnDesign,
    offsets: &PinOffsets,
    grid: &Grid,
    pin_ref: &PinRef,
    signal_layers: &Vec<usize>,
    clearance_cells: i64,
) -> (r: Option<(i64, i64, Vec<usize>, i64)>)
    requires
        grid.wf(),
        routable(design@, offsets@),
        signal_layers@ == signal_layers_of(design@.layers),
        1 <= clearance_cells <= coord_limit(),
    ensures
        r matches Some((gx, gy, layers, rad)) ==> -0x100_0000_0000 <= gx <= 0x100_0000_0000
            && -0x100_0000_0000 <= gy <= 0x100_0000_0000 && -coord_limit() <= rad <= 2 * coord_limit()
            + 1 && forall|k: int| 0 <= k < layers@.len() ==> #[trigger] layers@[k] < layer_count(
            design@,
        ),
        match pad_padstack(design@, pin_ref.component@, pin_ref.pin@) {
            None => r is None,
            Some(j) => r matches Some((gx, gy, layers, rad)) && pad_position(
                design@,
                offsets@,
                pin_ref.component@,
                pin_ref.pin@,
            ) matches Some((x, y, _)) && gx == trunc_div(x - grid.offset_x, grid.grid_size as int) && gy
                == trunc_div(y - grid.offset_y, grid.grid_size as int) && layers@ == padstack_planes(
                design@,
                j,
                signal_layers@,
            ) && rad == pad_radius_of(design@.padstacks[j].shapes, grid.grid_size as int, clearance_cells as int),
        },
{
    proof {
        lemma_pad_position_range(design@, offsets@, pin_ref.component@, pin_ref.pin@);
    }
    proof {
        lemma_pad_inputs_ok(design@, offsets@, pin_ref.component@, pin_ref.pin@);
    }
    let (x, y) = match get_pad_position(design, offsets, pin_ref.component.as_str(), pin_ref.pin.as_str()) {
        None => return None,
        Some((x, y, _)) => (x, y),
    };
    let (gx, gy) = grid.dsn_to_grid(x, y);
    let c = match find_placement(design, pin_ref.component.as_str()) {
        None => return None,
        Some((c, _)) => c,
    };
    proof {
        assert(design@.components[c as int] == design.components@[c as int]@);
    }
    let ii = match find_image(&design.images, design.components[c].image_name.as_str()) {
        None => return None,
        Some(ii) => ii,
    };
    let image = &design.images[ii];
    proof {
        assert(image_of_component(design@, c as int) == Some(ii as int));
        assert(design@.images[ii as int] == image@);
    }
    let k = match find_pin(&image.pins, pin_ref.pin.as_str()) {
        None => return None,
        Some(k) => k,
    };
    proof {
        assert(design@.images[ii as int].pins[k as int] == image.pins@[k as int]@);
    }
    let j = match find_padstack(&design.padstacks, image.pins[k].padstack_name.as_str()) {
        None => return None,
        Some(j) => j,
    };
    proof {
        assert(design@.padstacks[j as int] == design.padstacks@[j as int]@);
        assert forall|t: int|
            0 <= t < design.padstacks@[j as int].shapes@.len() implies shape_in_range(
            #[trigger] design.padstacks@[j as int].shapes@[t]@,
        ) by {
            assert(design@.padstacks[j as int].shapes[t] == design.padstacks@[j as int].shapes@[t]@);
        }
    }
    let rad = max_pad_radius(&design.padstacks[j].shapes, grid.grid_size, clearance_cells);
    let layers = pad_layers(design, j, signal_layers);
    Some((gx, gy, layers, rad))
}

/// Adds a cell to a set of cells kept as a list without repeats.
fn add_cell(cells: &mut Vec<(i32, i32, usize)>, c: (i32, i32, usize))
    ensures
        final(cells)@ == old(cells)@ || final(cells)@ == old(cells)@.push(c),
        final(cells)@.contains(c),
        old(cells)@.contains(c) ==> final(cells)@ == old(cells)@,
{
    let mut k: usize = 0;
    while k < cells.len()
        invariant
            k <= cells.len(),
            cells@ == old(cells)@,
            forall|j: int| 0 <= j < k ==> cells@[j] != c,
        decreases cells.len() - k,
    {
        let e = cells[k];
        if e.0 == c.0 && e.1 == c.1 && e.2 == c.2 {
            return;
        }
        k = k + 1;
    }
    cells.push(c);
    proof {
        assert(cells@.last() == c);
    }
}

/// Whether `c` is a cell of the grid on one of its planes.
spec fn cell_in(grid: &Grid, c: (i32, i32, usize)) -> bool {
    0 <= c.0 < grid.width && 0 <= c.1 < grid.height && c.2 < grid.num_layers
}

/// Adds the cell `(gx, gy)` on plane `l` to `cells` when it lies in the grid.
fn add_grid_cell(
    grid: &Grid,
    cells: &mut Vec<(i32, i32, usize)>,
    gx: i64,
    gy: i64,
    l: usize,
    Ghost(planes_used): Ghost<Set<usize>>,
)
    requires
        grid.wf(),
        l < grid.num_layers,
        planes_used.contains(l),
        forall|k: int| 0 <= k < old(cells)@.len() ==> cell_in(grid, #[trigger] old(cells)@[k]),
        forall|k: int| 0 <= k < old(cells)@.len() ==> planes_used.contains((#[trigger] old(cells)@[k]).2),
    ensures
        forall|k: int| 0 <= k < final(cells)@.len() ==> cell_in(grid, #[trigger] final(cells)@[k]),
        forall|k: int| 0 <= k < final(cells)@.len() ==> planes_used.contains((#[trigger] final(cells)@[k]).2),
        grid.inside(gx as int, gy as int) ==> (final(cells)@ == old(cells)@ || final(cells)@ == old(cells)@.push(
            (gx as i32, gy as i32, l),
        )) && final(cells)@.contains((gx as i32, gy as i32, l)) && (old(cells)@.contains((gx as i32, gy as i32, l))
            ==> final(cells)@ == old(cells)@),
        !grid.inside(gx as int, gy as int) ==> final(cells)@ == old(cells)@,
{
    if grid.in_bounds(gx, gy) {
        add_cell(cells, (gx as i32, gy as i32, l));
        proof {
            assert forall|k: int| 0 <= k < cells@.len() implies cell_in(grid, #[trigger] cells@[k])
                && planes_used.contains(cells@[k].2) by {
                if k < old(cells)@.len() {
                    assert(cells@[k] == old(cells)@[k]);
                }
            }
        }
    }
}

/// Plane `l` is the target pad's plane or one of the first `n` signal layers.
spec fn target_plane(tl: int, sig: Seq<usize>, n: int, l: int) -> bool {
    l == tl || exists|k: int| 0 <= k < n && k < sig.len() && #[trigger] sig[k] as int == l
}

/// Cell `(gx, gy)` on plane `l` is a target of the square of `radius` around
/// `(tgx, tgy)`.
pub open spec fn in_target_area(tgx: int, tgy: int, radius: int, tl: int, sig: Seq<usize>, gx: int, gy: int, l: int) -> bool {
    &&& tgx - radius <= gx <= tgx + radius
    &&& tgy - radius <= gy <= tgy + radius
    &&& (l == tl || exists|k: int| 0 <= k < sig.len() && #[trigger] sig[k] as int == l)
}

/// The targets marked so far: the rows before `dy`, the cells of row `dy`
/// before `dx`, and on cell `dx` the pad's plane and the first `k` signal
/// layers (nothing when `k < 0`).
spec fn targets_done(
    tgx: int,
    tgy: int,
    radius: int,
    tl: int,
    sig: Seq<usize>,
    dy: int,
    dx: int,
    k: int,
    gx: int,
    gy: int,
    l: int,
) -> bool {
    &&& tgx - radius <= gx <= tgx + radius
    &&& tgy - radius <= gy <= tgy + radius
    &&& (((gy - tgy < dy || (gy - tgy == dy && gx - tgx < dx)) && target_plane(tl, sig, sig.len() as int, l)) || (gy
        - tgy == dy && gx - tgx == dx && k >= 0 && target_plane(tl, sig, k, l)))
}

proof fn lemma_mark_target_cell(ws1: BfsWorkspace, ws2: BfsWorkspace, x: int, y: int, t: int)
    requires
        ws1.wf(),
        ws2.same_shape(ws1),
        0 <= x < ws1.width,
        0 <= y < ws1.height,
        0 <= t < ws1.num_layers,
        ws2.target@ == ws1.target@.update(ws1.at(x, y, t), true),
    ensures
        forall|gx: int, gy: int, l: int|
            0 <= gx < ws1.width && 0 <= gy < ws1.height && 0 <= l < ws1.num_layers ==> #[trigger] ws2.target@[ws2.at(
                gx,
                gy,
                l,
            )] == (ws1.target@[ws1.at(gx, gy, l)] || (gx == x && gy == y && l == t)),
{
    assert forall|gx: int, gy: int, l: int|
        0 <= gx < ws1.width && 0 <= gy < ws1.height && 0 <= l < ws1.num_layers implies #[trigger] ws2.target@[ws2.at(
        gx,
        gy,
        l,
    )] == (ws1.target@[ws1.at(gx, gy, l)] || (gx == x && gy == y && l == t)) by {
        lemma_cell(ws1.width as int, ws1.height as int, ws1.num_layers as int, gx, gy, l);
        lemma_cell(ws1.width as int, ws1.height as int, ws1.num_layers as int, x, y, t);
        if ws1.at(gx, gy, l) == ws1.at(x, y, t) {
            lemma_cell_injective(ws1.width as int, ws1.height as int, gx, gy, l, x, y, t);
        }
    }
}

/// Marks as targets the cells within `radius` (in x and in y) of the target
/// pad's cell, on its plane and on every signal layer.
fn mark_targets(
    grid: &Grid,
    ws: &mut BfsWorkspace,
    tgx: i64,
    tgy: i64,
    radius: i64,
    target_layer: usize,
    signal_layers: &Vec<usize>,
)
    requires
        grid.wf(),
        old(ws).wf(),
        grid.width == old(ws).width && grid.height == old(ws).height && grid.num_layers == old(ws).num_layers,
        target_layer < grid.num_layers,
        forall|k: int| 0 <= k < signal_layers@.len() ==> #[trigger] signal_layers@[k] < grid.num_layers,
        -0x10_0000 <= tgx <= 0x10_0000,
        -0x10_0000 <= tgy <= 0x10_0000,
        0 <= radius <= 0x40_0000_0000,
    ensures
        final(ws).wf(),
        final(ws).same_shape(*old(ws)),
        final(ws).generation@ == old(ws).generation@,
        final(ws).current_gen == old(ws).current_gen,
        final(ws).dist@ == old(ws).dist@,
        final(ws).prev@ == old(ws).prev@,
        forall|gx: int, gy: int, l: int|
            0 <= gx < old(ws).width && 0 <= gy < old(ws).height && 0 <= l < old(ws).num_layers
                ==> #[trigger] final(ws).target@[final(ws).at(gx, gy, l)] == (old(ws).target@[old(ws).at(gx, gy, l)]
                || in_target_area(tgx as int, tgy as int, radius as int, target_layer as int, signal_layers@, gx, gy, l)),
{
    let ghost sig = signal_layers@;
    let ghost w0 = *ws;
    let mut dy: i64 = -radius;
    while dy <= radius
        invariant
            grid.wf(),
            ws.wf(),
            ws.same_shape(*old(ws)),
            ws.generation@ == old(ws).generation@,
            ws.current_gen == old(ws).current_gen,
            grid.width == ws.width && grid.height == ws.height && grid.num_layers == ws.num_layers,
            target_layer < grid.num_layers,
            forall|k: int| 0 <= k < signal_layers@.len() ==> #[trigger] signal_layers@[k] < grid.num_layers,
            -0x10_0000 <= tgx <= 0x10_0000,
            -0x10_0000 <= tgy <= 0x10_0000,
            0 <= radius <= 0x40_0000_0000,
            -radius <= dy <= radius + 1,
            forall|gx: int, gy: int, l: int|
                0 <= gx < w0.width && 0 <= gy < w0.height && 0 <= l < w0.num_layers
                    ==> #[trigger] ws.target@[ws.at(gx, gy, l)] == (w0.target@[w0.at(gx, gy, l)]
                    || targets_done(tgx as int, tgy as int, radius as int, target_layer as int, sig, dy as int, -radius as int, -1, gx, gy, l)),
            ws.dist@ == w0.dist@,
            ws.prev@ == w0.prev@,
            w0 == *old(ws),
            sig == signal_layers@,
        decreases radius + 1 - dy,
    {
        let mut dx: i64 = -radius;
        while dx <= radius
            invariant
                grid.wf(),
                ws.wf(),
                ws.same_shape(*old(ws)),
                ws.generation@ == old(ws).generation@,
                ws.current_gen == old(ws).current_gen,
                grid.width == ws.width && grid.height == ws.height && grid.num_layers == ws.num_layers,
                target_layer < grid.num_layers,
                forall|k: int| 0 <= k < signal_layers@.len() ==> #[trigger] signal_layers@[k] < grid.num_layers,
                -0x10_0000 <= tgx <= 0x10_0000,
                -0x10_0000 <= tgy <= 0x10_0000,
                0 <= radius <= 0x40_0000_0000,
                -radius <= dy <= radius,
                -radius <= dx <= radius + 1,
                forall|gx: int, gy: int, l: int|
                    0 <= gx < w0.width && 0 <= gy < w0.height && 0 <= l < w0.num_layers
                        ==> #[trigger] ws.target@[ws.at(gx, gy, l)] == (w0.target@[w0.at(gx, gy, l)]
                        || targets_done(tgx as int, tgy as int, radius as int, target_layer as int, sig, dy as int, dx as int, -1, gx, gy, l)),
                ws.dist@ == w0.dist@,
                ws.prev@ == w0.prev@,
                w0 == *old(ws),
                sig == signal_layers@,
            decreases radius + 1 - dx,
        {
            let nx = tgx + dx;
            let ny = tgy + dy;
            if grid.in_bounds(nx, ny) {
                let ghost w1 = *ws;
                ws.mark_target(nx as i32, ny as i32, target_layer);
                proof {
                    lemma_mark_target_cell(w1, *ws, nx as int, ny as int, target_layer as int);
                    assert forall|gx: int, gy: int, l: int|
                        0 <= gx < w0.width && 0 <= gy < w0.height && 0 <= l < w0.num_layers
                            implies #[trigger] ws.target@[ws.at(gx, gy, l)] == (w0.target@[w0.at(gx, gy, l)]
                            || targets_done(tgx as int, tgy as int, radius as int, target_layer as int, sig, dy as int, dx as int, 0, gx, gy, l)) by {
                        assert(w1.target@[w1.at(gx, gy, l)] == (w0.target@[w0.at(gx, gy, l)]
                            || targets_done(tgx as int, tgy as int, radius as int, target_layer as int, sig, dy as int, dx as int, -1, gx, gy, l)));
                    }
                }
                let mut k: usize = 0;
                while k < signal_layers.len()
                    invariant
                        ws.wf(),
                        ws.same_shape(*old(ws)),
                        ws.generation@ == old(ws).generation@,
                        ws.current_gen == old(ws).current_gen,
                        grid.width == ws.width && grid.height == ws.height && grid.num_layers == ws.num_layers,
                        forall|j: int| 0 <= j < signal_layers@.len() ==> #[trigger] signal_layers@[j] < grid.num_layers,
                        0 <= nx < grid.width,
                        0 <= ny < grid.height,
                        k <= signal_layers.len(),
                        nx == tgx + dx,
                        ny == tgy + dy,
                        -radius <= dy <= radius,
                        -radius <= dx <= radius,
                        forall|gx: int, gy: int, l: int|
                0 <= gx < w0.width && 0 <= gy < w0.height && 0 <= l < w0.num_layers
                    ==> #[trigger] ws.target@[ws.at(gx, gy, l)] == (w0.target@[w0.at(gx, gy, l)]
                    || targets_done(tgx as int, tgy as int, radius as int, target_layer as int, sig, dy as int, dx as int, k as int, gx, gy, l)),
            ws.dist@ == w0.dist@,
            ws.prev@ == w0.prev@,
            w0 == *old(ws),
            sig == signal_layers@,
                    decreases signal_layers.len() - k,
                {
                    let ghost w1 = *ws;
                    ws.mark_target(nx as i32, ny as i32, signal_layers[k]);
                    proof {
                        lemma_mark_target_cell(w1, *ws, nx as int, ny as int, sig[k as int] as int);
                        assert forall|gx: int, gy: int, l: int|
                            0 <= gx < w0.width && 0 <= gy < w0.height && 0 <= l < w0.num_layers
                                implies #[trigger] ws.target@[ws.at(gx, gy, l)] == (w0.target@[w0.at(gx, gy, l)]
                                || targets_done(tgx as int, tgy as int, radius as int, target_layer as int, sig, dy as int, dx as int, k + 1, gx, gy, l)) by {
                            assert(w1.target@[w1.at(gx, gy, l)] == (w0.target@[w0.at(gx, gy, l)]
                                || targets_done(tgx as int, tgy as int, radius as int, target_layer as int, sig, dy as int, dx as int, k as int, gx, gy, l)));
                            if gx == nx && gy == ny && l == sig[k as int] as int {
                                assert(target_plane(target_layer as int, sig, k + 1, l));
                            }
                            if target_plane(target_layer as int, sig, k as int, l) {
                                if l != target_layer as int {
                                    let q = choose|q: int| 0 <= q < k && q < sig.len() && #[trigger] sig[q] as int == l;
                                    assert(sig[q] as int == l);
                                }
                            }
                        }
                    }
                    k = k + 1;
                }
            }
            proof {
                assert forall|gx: int, gy: int, l: int|
                    0 <= gx < w0.width && 0 <= gy < w0.height && 0 <= l < w0.num_layers
                        implies #[trigger] ws.target@[ws.at(gx, gy, l)] == (w0.target@[w0.at(gx, gy, l)]
                        || targets_done(tgx as int, tgy as int, radius as int, target_layer as int, sig, dy as int, dx + 1, -1, gx, gy, l)) by {
                    if grid.inside(nx as int, ny as int) {
                        assert(ws.target@[ws.at(gx, gy, l)] == (w0.target@[w0.at(gx, gy, l)]
                            || targets_done(tgx as int, tgy as int, radius as int, target_layer as int, sig, dy as int, dx as int, sig.len() as int, gx, gy, l)));
                    } else {
                        assert(ws.target@[ws.at(gx, gy, l)] == (w0.target@[w0.at(gx, gy, l)]
                            || targets_done(tgx as int, tgy as int, radius as int, target_layer as int, sig, dy as int, dx as int, -1, gx, gy, l)));
                    }
                }
            }
            dx = dx + 1;
        }
        proof {
            assert forall|gx: int, gy: int, l: int|
                0 <= gx < w0.width && 0 <= gy < w0.height && 0 <= l < w0.num_layers
                    implies #[trigger] ws.target@[ws.at(gx, gy, l)] == (w0.target@[w0.at(gx, gy, l)]
                    || targets_done(tgx as int, tgy as int, radius as int, target_layer as int, sig, dy + 1, -radius as int, -1, gx, gy, l)) by {
                assert(ws.target@[ws.at(gx, gy, l)] == (w0.target@[w0.at(gx, gy, l)]
                    || targets_done(tgx as int, tgy as int, radius as int, target_layer as int, sig, dy as int, dx as int, -1, gx, gy, l)));
            }
        }
        dy = dy + 1;
    }
    proof {
        assert forall|gx: int, gy: int, l: int|
            0 <= gx < w0.width && 0 <= gy < w0.height && 0 <= l < w0.num_layers
                implies #[trigger] ws.target@[ws.at(gx, gy, l)] == (w0.target@[w0.at(gx, gy, l)]
                || in_target_area(tgx as int, tgy as int, radius as int, target_layer as int, sig, gx, gy, l)) by {
            assert(ws.target@[ws.at(gx, gy, l)] == (w0.target@[w0.at(gx, gy, l)]
                || targets_done(tgx as int, tgy as int, radius as int, target_layer as int, sig, dy as int, -radius as int, -1, gx, gy, l)));
            if in_target_area(tgx as int, tgy as int, radius as int, target_layer as int, sig, gx, gy, l) {
                if l != target_layer as int {
                    let q = choose|q: int| 0 <= q < sig.len() && #[trigger] sig[q] as int == l;
                    assert(sig[q] as int == l);
                }
            }
            if targets_done(tgx as int, tgy as int, radius as int, target_layer as int, sig, dy as int, -radius as int, -1, gx, gy, l) {
                if l != target_layer as int {
                    let q = choose|q: int| 0 <= q < sig.len() && q < sig.len() && #[trigger] sig[q] as int == l;
                    assert(sig[q] as int == l);
                }
            }
        }
    }
}


fn copy_cells(cells: &Vec<(i32, i32, usize)>) -> (r: Vec<(i32, i32, usize)>)
    ensures
        r@ == cells@,
{
    let mut r: Vec<(i32, i32, usize)> = Vec::new();
    let mut k: usize = 0;
    while k < cells.len()
        invariant
            k <= cells.len(),
            r@ == cells@.take(k as int),
        decreases cells.len() - k,
    {
        r.push(cells[k]);
        proof {
            assert(cells@.take(k + 1) =~= cells@.take(k as int).push(cells@[k as int]));
        }
        k = k + 1;
    }
    proof {
        assert(cells@.take(cells@.len() as int) =~= cells@);
    }
    r
}

/// A pad obstacle: a cell, the planes, a radius, all within the grid's range.
spec fn obstacle_ok(d: DesignView, o: (i64, i64, Vec<usize>, i64)) -> bool {
    &&& -0x100_0000_0000 <= o.0 <= 0x100_0000_0000
    &&& -0x100_0000_0000 <= o.1 <= 0x100_0000_0000
    &&& -coord_limit() <= o.3 <= 2 * coord_limit() + 1
    &&& forall|k: int| 0 <= k < o.2@.len() ==> #[trigger] o.2@[k] < layer_count(d)
}

/// A cell of a path lies in the grid.
spec fn path_in(grid: Grid, s: State) -> bool {
    0 <= s.gx < grid.width && 0 <= s.gy < grid.height && s.layer < grid.num_layers
}

/// The cells of the pad obstacles of `obs` before obstacle `j`, and of
/// obstacle `j` before its plane `t`: each plane's cells within the
/// obstacle's radius of its cell.
spec fn obstacles_hit(obs: Seq<(i64, i64, Vec<usize>, i64)>, j: int, t: int) -> spec_fn(int, int, int) -> bool {
    |l: int, gx: int, gy: int|
        exists|a: int, b: int|
            0 <= a < obs.len() && 0 <= b < obs[a].2@.len() && (a < j || (a == j && b < t)) && #[trigger] obs[a].2@[b]
                as int == l && in_circle(obs[a].0 as int, obs[a].1 as int, obs[a].3 as int, gx, gy)
}

/// Sets the pad obstacles of `obstacles` to `value` on each of their planes.
fn fill_obstacles(grid: &mut Grid, obstacles: &Vec<(i64, i64, Vec<usize>, i64)>, value: bool, Ghost(d): Ghost<DesignView>)
    requires
        old(grid).wf(),
        old(grid).num_layers == layer_count(d),
        forall|j: int| 0 <= j < obstacles@.len() ==> obstacle_ok(d, #[trigger] obstacles@[j]),
    ensures
        final(grid).wf(),
        final(grid).same_frame(*old(grid)),
        final(grid).fills(*old(grid), obstacles_hit(obstacles@, obstacles@.len() as int, 0), value),
{
    proof {
        lemma_fills_none(*grid, obstacles_hit(obstacles@, 0, 0), value);
    }
    let mut j: usize = 0;
    while j < obstacles.len()
        invariant
            grid.wf(),
            grid.same_frame(*old(grid)),
            grid.num_layers == layer_count(d),
            forall|x: int| 0 <= x < obstacles@.len() ==> obstacle_ok(d, #[trigger] obstacles@[x]),
            j <= obstacles.len(),
            grid.fills(*old(grid), obstacles_hit(obstacles@, j as int, 0), value),
        decreases obstacles.len() - j,
    {
        let ob = &obstacles[j];
        proof {
            assert(obstacle_ok(d, obstacles@[j as int]));
        }
        let mut t: usize = 0;
        while t < ob.2.len()
            invariant
                grid.wf(),
                grid.same_frame(*old(grid)),
                grid.num_layers == layer_count(d),
                obstacle_ok(d, *ob),
                t <= ob.2.len(),
                j < obstacles@.len(),
                *ob == obstacles@[j as int],
                grid.fills(*old(grid), obstacles_hit(obstacles@, j as int, t as int), value),
            decreases ob.2.len() - t,
        {
            let ghost g1 = *grid;
            grid.fill_circle(ob.2[t], ob.0, ob.1, ob.3, value);
            proof {
                let obs = obstacles@;
                let h1 = obstacles_hit(obs, j as int, t as int);
                let h2 = circle_hit(ob.2@[t as int] as int, ob.0 as int, ob.1 as int, ob.3 as int);
                let h = obstacles_hit(obs, j as int, t + 1);
                assert(grid.fills(g1, h2, value));
                assert forall|l: int, x: int, y: int| #[trigger] h(l, x, y) == (h1(l, x, y) || h2(l, x, y)) by {
                    if h(l, x, y) {
                        let (a, b) = choose|a: int, b: int|
                            0 <= a < obs.len() && 0 <= b < obs[a].2@.len() && (a < j || (a == j && b < t + 1))
                                && #[trigger] obs[a].2@[b] as int == l && in_circle(obs[a].0 as int, obs[a].1 as int, obs[a].3 as int, x, y);
                        if !(a == j && b == t) {
                            assert(h1(l, x, y));
                        }
                    }
                    if h2(l, x, y) {
                        assert(obs[j as int].2@[t as int] as int == l);
                        assert(h(l, x, y));
                    }
                    if h1(l, x, y) {
                        let (a, b) = choose|a: int, b: int|
                            0 <= a < obs.len() && 0 <= b < obs[a].2@.len() && (a < j || (a == j && b < t))
                                && #[trigger] obs[a].2@[b] as int == l && in_circle(obs[a].0 as int, obs[a].1 as int, obs[a].3 as int, x, y);
                        assert(obs[a].2@[b] as int == l);
                        assert(h(l, x, y));
                    }
                }
                lemma_fills_then(*old(grid), g1, *grid, h1, h2, h, value);
            }
            t = t + 1;
        }
        proof {
            let obs = obstacles@;
            let h1 = obstacles_hit(obs, j as int, t as int);
            let h = obstacles_hit(obs, j + 1, 0);
            assert forall|l: int, x: int, y: int| #[trigger] h(l, x, y) == h1(l, x, y) by {
                if h(l, x, y) {
                    let (a, b) = choose|a: int, b: int|
                        0 <= a < obs.len() && 0 <= b < obs[a].2@.len() && (a < j + 1 || (a == j + 1 && b < 0))
                            && #[trigger] obs[a].2@[b] as int == l && in_circle(obs[a].0 as int, obs[a].1 as int, obs[a].3 as int, x, y);
                    assert(obs[a].2@[b] as int == l);
                    assert(h1(l, x, y));
                }
                if h1(l, x, y) {
                    let (a, b) = choose|a: int, b: int|
                        0 <= a < obs.len() && 0 <= b < obs[a].2@.len() && (a < j || (a == j && b < t))
                            && #[trigger] obs[a].2@[b] as int == l && in_circle(obs[a].0 as int, obs[a].1 as int, obs[a].3 as int, x, y);
                    assert(obs[a].2@[b] as int == l);
                    assert(h(l, x, y));
                }
            }
            lemma_fills_same(*old(grid), *grid, h1, h, value);
        }
        j = j + 1;
    }
}

/// What routing net `net` on grid `g0` (giving grid `g1`) lays down: paths
/// that make its wires `w` and vias `v` (see [`paths_make`]), the clearance
/// around each of their cells blocked in `g1`, each cell after a path's first
/// blocked in `g0` only near the pad it reaches or in the net's own pad zones,
/// and every cell in the grid.
spec fn route_ok(
    d: DesignView,
    o: Seq<Seq<Seq<(i64, i64)>>>,
    g0: Grid,
    g1: Grid,
    net: NetView,
    radius: int,
    cc: int,
    width: int,
    w: Seq<RoutedWire>,
    v: Seq<RoutedVia>,
    ok: bool,
    paths: Seq<Seq<(i32, i32, u8)>>,
    reached: Seq<int>,
) -> bool {
    &&& paths_make(
        d,
        g0.frame(),
        radius,
        found_spots(d, o, net.pins, net.pins.len() as int),
        net.name,
        width,
        w,
        v,
        ok,
        paths,
        reached,
    )
    &&& paths_marked(g1, paths, cc)
    &&& paths_clear(
        g0,
        d,
        o,
        g0.frame(),
        cc,
        radius,
        net.pins,
        found_spots(d, o, net.pins, net.pins.len() as int),
        paths,
        reached,
    )
    &&& forall|j: int, x: int|
        0 <= j < paths.len() && 0 <= x < paths[j].len() ==> g0.inside((#[trigger] paths[j][x]).0 as int, paths[j][x].1 as int)
            && 0 <= plane_of(paths[j][x]) < g0.num_layers
}

/// The paths and reached pads of a net routed in a pass.
spec fn new_paths(
    d: DesignView,
    o: Seq<Seq<Seq<(i64, i64)>>>,
    g0: Grid,
    g1: Grid,
    n: int,
    w: Seq<RoutedWire>,
    v: Seq<RoutedVia>,
    ok: bool,
) -> (Seq<Seq<(i32, i32, u8)>>, Seq<int>) {
    choose|paths: Seq<Seq<(i32, i32, u8)>>, reached: Seq<int>|
        #[trigger] route_ok(
            d,
            o,
            g0,
            g1,
            d.nets[n],
            reach_cells(d, o),
            clearance_cells_in(d, o),
            trace_width_of(d),
            w,
            v,
            ok,
            paths,
            reached,
        )
}

/// The net routes of a pass after net `n`, with outcome `oc`, added its
/// wires and vias at the end of `wires0` and `vias0`.
spec fn next_routes(
    d: DesignView,
    o: Seq<Seq<Seq<(i64, i64)>>>,
    g0: Grid,
    g1: Grid,
    routes0: Seq<(int, Seq<Seq<(i32, i32, u8)>>, Seq<int>, int, int, int, int)>,
    n: int,
    oc: Option<(Vec<RoutedWire>, Vec<RoutedVia>, bool)>,
    wires0: Seq<RoutedWire>,
    vias0: Seq<RoutedVia>,
) -> Seq<(int, Seq<Seq<(i32, i32, u8)>>, Seq<int>, int, int, int, int)> {
    match oc {
        Some((w, v, ok)) => routes0.push(
            (
                n,
                new_paths(d, o, g0, g1, n, w@, v@, ok).0,
                new_paths(d, o, g0, g1, n, w@, v@, ok).1,
                wires0.len() as int,
                (wires0.len() + w@.len()) as int,
                vias0.len() as int,
                (vias0.len() + v@.len()) as int,
            ),
        ),
        None => routes0,
    }
}

/// The routes of a pass so far hold in result parts `wires`, `vias`,
/// `unrouted` (see [`routes_in`]), with their clearance blocked in grid `g`
/// and their cells in it.
#[verifier::opaque]
spec fn routes_hold(
    d: DesignView,
    o: Seq<Seq<Seq<(i64, i64)>>>,
    g: Grid,
    wires: Seq<RoutedWire>,
    vias: Seq<RoutedVia>,
    unrouted: Seq<String>,
    routes: Seq<(int, Seq<Seq<(i32, i32, u8)>>, Seq<int>, int, int, int, int)>,
) -> bool {
    &&& routes_in(d, o, wires, vias, unrouted, routes)
    &&& routes_tile(routes, wires.len() as int, vias.len() as int)
    &&& forall|i: int| 0 <= i < routes.len() ==> #[trigger] paths_marked(g, routes[i].1, clearance_cells_in(d, o))
    &&& forall|i: int, j: int, x: int|
        0 <= i < routes.len() && 0 <= j < routes[i].1.len() && 0 <= x < routes[i].1[j].len() ==> g.inside(
            (#[trigger] routes[i].1[j][x]).0 as int,
            routes[i].1[j][x].1 as int,
        ) && 0 <= plane_of(routes[i].1[j][x]) < g.num_layers
}

/// One net routed in a pass keeps the routes of the pass: what came before
/// stays, the net's own part is added, and its copper keeps clear of what
/// was laid before.
proof fn lemma_pass_step(
    d: DesignView,
    o: Seq<Seq<Seq<(i64, i64)>>>,
    g0: Grid,
    g1: Grid,
    routes0: Seq<(int, Seq<Seq<(i32, i32, u8)>>, Seq<int>, int, int, int, int)>,
    wires0: Seq<RoutedWire>,
    vias0: Seq<RoutedVia>,
    un0: Seq<String>,
    wires1: Seq<RoutedWire>,
    vias1: Seq<RoutedVia>,
    un1: Seq<String>,
    n: int,
    oc: Option<(Vec<RoutedWire>, Vec<RoutedVia>, bool)>,
)
    requires
        0 <= n < d.nets.len(),
        g0.frame() == routing_frame(d, o),
        g1.same_frame(g0),
        g1.keeps(g0),
        routes_hold(d, o, g0, wires0, vias0, un0, routes0),
        oc is None ==> wires1 == wires0 && vias1 == vias0 && names_view(un1) == names_view(un0).push(d.nets[n].name),
        oc matches Some((w, v, ok)) ==> wires1 == wires0 + w@ && vias1 == vias0 + v@ && (ok ==> un1 == un0) && (!ok
            ==> names_view(un1) == names_view(un0).push(d.nets[n].name)),
        oc matches Some((w, v, ok)) ==> exists|paths: Seq<Seq<(i32, i32, u8)>>, reached: Seq<int>|
            #[trigger] route_ok(
                d,
                o,
                g0,
                g1,
                d.nets[n],
                reach_cells(d, o),
                clearance_cells_in(d, o),
                trace_width_of(d),
                w@,
                v@,
                ok,
                paths,
                reached,
            ),
    ensures
        routes_hold(d, o, g1, wires1, vias1, un1, next_routes(d, o, g0, g1, routes0, n, oc, wires0, vias0)),
{
    reveal(routes_hold);
    let routes1 = next_routes(d, o, g0, g1, routes0, n, oc, wires0, vias0);
    let cc = clearance_cells_in(d, o);
    assert forall|i: int| 0 <= i < routes0.len() implies #[trigger] net_route(d, o, wires1, vias1, un1, routes0[i]) by {
        let e = routes0[i];
        assert(net_route(d, o, wires0, vias0, un0, e));
        assert(wires1.subrange(e.3, e.4) =~= wires0.subrange(e.3, e.4));
        assert(vias1.subrange(e.5, e.6) =~= vias0.subrange(e.5, e.6));
        let nm = d.nets[e.0].name;
        assert(routed_in(un1, nm) ==> routed_in(un0, nm)) by {
            if !routed_in(un0, nm) {
                let x = names_view(un0).index_of(nm);
                if un1 != un0 {
                    assert(names_view(un1)[x] == names_view(un0)[x]);
                }
            }
        }
        lemma_paths_make_some(
            d,
            routing_frame(d, o),
            reach_cells(d, o),
            found_spots(d, o, d.nets[e.0].pins, d.nets[e.0].pins.len() as int),
            nm,
            trace_width_of(d),
            wires0.subrange(e.3, e.4),
            vias0.subrange(e.5, e.6),
            routed_in(un0, nm),
            routed_in(un1, nm),
            e.1,
            e.2,
        );
    }
    assert forall|i: int| 0 <= i < routes0.len() implies #[trigger] paths_marked(g1, routes0[i].1, cc) by {
        assert(paths_marked(g0, routes0[i].1, cc));
        lemma_keeps_paths_marked(g0, g1, routes0[i].1, cc);
    }
    if let Some((w, v, ok)) = oc {
        let (paths, reached) = new_paths(d, o, g0, g1, n, w@, v@, ok);
        assert(route_ok(
            d,
            o,
            g0,
            g1,
            d.nets[n],
            reach_cells(d, o),
            cc,
            trace_width_of(d),
            w@,
            v@,
            ok,
            paths,
            reached,
        ));
        let e = routes1[routes0.len() as int];
        assert(e == (n, paths, reached, wires0.len() as int, (wires0.len() + w@.len()) as int, vias0.len() as int, (vias0.len() + v@.len()) as int));
        let nm = d.nets[n].name;
        assert(wires1.subrange(e.3, e.4) =~= w@);
        assert(vias1.subrange(e.5, e.6) =~= v@);
        assert(routed_in(un1, nm) ==> ok) by {
            if !ok {
                assert(names_view(un1)[names_view(un0).len() as int] == nm);
            }
        }
        lemma_paths_make_some(
            d,
            routing_frame(d, o),
            reach_cells(d, o),
            found_spots(d, o, d.nets[n].pins, d.nets[n].pins.len() as int),
            nm,
            trace_width_of(d),
            w@,
            v@,
            ok,
            routed_in(un1, nm),
            paths,
            reached,
        );
        assert(net_route(d, o, wires1, vias1, un1, e));
        assert forall|i: int| 0 <= i < routes1.len() - 1 implies (#[trigger] routes1[i]).4 == routes1[i + 1].3 && routes1[i].6
            == routes1[i + 1].5 by {
            assert(routes1[i] == routes0[i]);
            if i + 1 < routes0.len() {
                assert(routes1[i + 1] == routes0[i + 1]);
            } else {
                assert(routes0[i] == routes0.last());
            }
        }
        assert(routes_tile(routes1, wires1.len() as int, vias1.len() as int));
        assert forall|i: int| 0 <= i < routes1.len() implies #[trigger] net_route(d, o, wires1, vias1, un1, routes1[i]) by {
            if i < routes0.len() {
                assert(routes1[i] == routes0[i]);
            }
        }
        assert forall|i: int, k: int| 0 <= i < k < routes1.len() implies kept_apart(
            d,
            o,
            #[trigger] routes1[i],
            #[trigger] routes1[k],
        ) by {
            assert(routes1[i] == routes0[i]);
            if k < routes0.len() {
                assert(routes1[k] == routes0[k]);
                assert(kept_apart(d, o, routes0[i], routes0[k]));
            } else {
                let e1 = routes0[i];
                assert(routes1[k] == e);
                assert forall|j1: int, x1: int, j2: int, x2: int|
                    0 <= j1 < e1.1.len() && 0 <= x1 < e1.1[j1].len() && 0 <= j2 < e.1.len() && 1 <= x2 < e.1[j2].len()
                        && plane_of(#[trigger] e1.1[j1][x1]) == plane_of(#[trigger] e.1[j2][x2]) && in_circle(
                        e1.1[j1][x1].0 as int,
                        e1.1[j1][x1].1 as int,
                        cc,
                        e.1[j2][x2].0 as int,
                        e.1[j2][x2].1 as int,
                    ) implies may_near(
                    d,
                    o,
                    routing_frame(d, o),
                    cc,
                    reach_cells(d, o),
                    d.nets[e.0].pins,
                    found_spots(d, o, d.nets[e.0].pins, d.nets[e.0].pins.len() as int),
                    e.2,
                    j2,
                    e.1[j2][x2],
                ) by {
                    let c1 = e1.1[j1][x1];
                    let c2 = e.1[j2][x2];
                    assert(paths_marked(g0, e1.1, cc));
                    assert(cells_marked(g0, e1.1[j1], e1.1[j1].len() as int, cc));
                    assert(g0.inside(c1.0 as int, c1.1 as int) && 0 <= plane_of(c1) < g0.num_layers);
                    assert(g0.inside(c2.0 as int, c2.1 as int));
                    assert(g0.blocked(plane_of(c1), c2.0 as int, c2.1 as int));
                    assert(paths[j2][x2] == c2);
                }
            }
        }
        assert forall|i: int| 0 <= i < routes1.len() implies #[trigger] paths_marked(g1, routes1[i].1, cc) by {
            if i < routes0.len() {
                assert(routes1[i] == routes0[i]);
                assert(paths_marked(g1, routes0[i].1, cc));
            }
        }
        assert forall|i: int, j: int, x: int|
            0 <= i < routes1.len() && 0 <= j < routes1[i].1.len() && 0 <= x < routes1[i].1[j].len() implies g1.inside(
            (#[trigger] routes1[i].1[j][x]).0 as int,
            routes1[i].1[j][x].1 as int,
        ) && 0 <= plane_of(routes1[i].1[j][x]) < g1.num_layers by {
            if i < routes0.len() {
                assert(routes1[i] == routes0[i]);
                assert(routes0[i].1[j][x] == routes1[i].1[j][x]);
            } else {
                assert(paths[j][x] == routes1[i].1[j][x]);
            }
        }
    } else {
        assert forall|i: int, j: int, x: int|
            0 <= i < routes1.len() && 0 <= j < routes1[i].1.len() && 0 <= x < routes1[i].1[j].len() implies g1.inside(
            (#[trigger] routes1[i].1[j][x]).0 as int,
            routes1[i].1[j][x].1 as int,
        ) && 0 <= plane_of(routes1[i].1[j][x]) < g1.num_layers by {
            assert(routes0[i].1[j][x] == routes1[i].1[j][x]);
        }
        assert forall|i: int, k: int| 0 <= i < k < routes1.len() implies kept_apart(
            d,
            o,
            #[trigger] routes1[i],
            #[trigger] routes1[k],
        ) by {
            assert(kept_apart(d, o, routes0[i], routes0[k]));
        }
    }
}

/// Routes one net: from its first pad, connects each further pad in turn to
/// what is routed already, by an A* search that may end on any cell near the
/// pad; each path found becomes wires and vias and, with the clearance
/// around it, an obstacle for what follows. The net's own pads are freed
/// while it is routed and marked again after. Gives the wires and vias of the
/// paths found and whether every pad was reached; `None` when fewer than two
/// of the net's pads can be found.
#[verifier::rlimit(60)]
fn route_net(
    grid: &mut Grid,
    ws: &mut BfsWorkspace,
    heap: &mut MinHeap,
    design: &DsnDesign,
    offsets: &PinOffsets,
    net: &Net,
    signal_layers: &Vec<usize>,
    trace_width: i64,
    clearance_cells: i64,
    pad_radius_cells: i64,
    via_cost: u32,
) -> (r: Option<(Vec<RoutedWire>, Vec<RoutedVia>, bool)>)
    requires
        old(grid).wf(),
        old(ws).wf(),
        old(heap).wf(),
        old(grid).width == old(ws).width && old(grid).height == old(ws).height && old(grid).num_layers
            == old(ws).num_layers,
        old(grid).num_layers == layer_count(design@),
        routable(design@, offsets@),
        signal_layers@ == signal_layers_of(design@.layers),
        1 <= clearance_cells <= coord_limit(),
        0 <= pad_radius_cells <= 2 * coord_limit(),
        via_cost >= 1,
        old(ws).target_indices@.len() == 0,
    ensures
        final(grid).wf(),
        final(grid).same_frame(*old(grid)),
        final(ws).wf(),
        final(ws).same_shape(*old(ws)),
        final(ws).target_indices@.len() == 0,
        final(heap).wf(),
        (r is None) == (found_pads(design@, offsets@, net@.pins, net@.pins.len() as int) < 2),
        final(grid).keeps(*old(grid)),
        r matches Some((w, v, ok)) ==> wires_join(
            design@,
            old(grid).frame(),
            pad_radius_cells as int,
            found_spots(design@, offsets@, net@.pins, net@.pins.len() as int),
            net.name@,
            trace_width as int,
            w@,
            v@,
            ok,
        ),
        r matches Some((w, v, ok)) ==> exists|paths: Seq<Seq<(i32, i32, u8)>>, reached: Seq<int>|
            #[trigger] route_ok(
                design@,
                offsets@,
                *old(grid),
                *final(grid),
                net@,
                pad_radius_cells as int,
                clearance_cells as int,
                trace_width as int,
                w@,
                v@,
                ok,
                paths,
                reached,
            ),
        r matches Some((w, v, _)) ==> (forall|k: int|
            0 <= k < w@.len() ==> wire_fits(
                design@,
                #[trigger] w@[k],
                net.name@,
                trace_width as int,
                planes(design@),
            )) && (forall|k: int| 0 <= k < v@.len() ==> via_fits(#[trigger] v@[k], net.name@)),
        r matches Some((w, v, _)) ==> (forall|k: int| 0 <= k < w@.len() ==> wire_in_frame(old(grid).frame(), #[trigger] w@[k]))
            && (forall|k: int| 0 <= k < v@.len() ==> via_in_frame(old(grid).frame(), #[trigger] v@[k])),
{
    let ghost d = design@;
    proof {
        lemma_signal_bound(d);
        lemma_planes_signal(d);
    }
    let ghost used = planes(d);
    let n = net.pins.len();
    let mut valid_pads: Vec<(i64, i64, usize)> = Vec::new();
    let mut k: usize = 0;
    while k < n
        invariant
            k <= n,
            n == net.pins.len(),
            d == design@,
            routable(d, offsets@),
            signal_layers@ == signal_layers_of(d.layers),
            forall|j: int|
                0 <= j < valid_pads@.len() ==> (#[trigger] valid_pads@[j]).2 < layer_count(d) && -2
                    * coord_limit() <= valid_pads@[j].0 <= 2 * coord_limit() && -2 * coord_limit()
                    <= valid_pads@[j].1 <= 2 * coord_limit() && planes(d).contains(valid_pads@[j].2),
            net@.pins.len() == n,
            valid_pads@.len() == found_pads(d, offsets@, net@.pins, k as int),
            valid_pads@.len() == found_spots(d, offsets@, net@.pins, k as int).len(),
            forall|j: int|
                0 <= j < valid_pads@.len() ==> ((#[trigger] valid_pads@[j]).0, valid_pads@[j].1) == found_spots(
                    d,
                    offsets@,
                    net@.pins,
                    k as int,
                )[j],
        decreases n - k,
    {
        let pin = &net.pins[k];
        proof {
            lemma_pad_position_range(d, offsets@, pin.component@, pin.pin@);
            assert(net@.pins[k as int] == pin@);
        }
        proof {
            lemma_pad_inputs_ok(design@, offsets@, pin.component@, pin.pin@);
        }
        match get_pad_position(design, offsets, pin.component.as_str(), pin.pin.as_str()) {
            Some((x, y, ln)) => {
                let li = layer_index(design, ln.as_str(), signal_layers);
                proof {
                    lemma_layer_index_bound(d, ln@);
                    lemma_layer_index_plane(d, ln@);
                }
                let ghost vp0 = valid_pads@;
                valid_pads.push((x, y, li));
                proof {
                    let fs = found_spots(d, offsets@, net@.pins, k as int);
                    assert(found_spots(d, offsets@, net@.pins, k + 1) == fs.push((x, y)));
                    assert forall|j: int| 0 <= j < valid_pads@.len() implies ((#[trigger] valid_pads@[j]).0, valid_pads@[j].1)
                        == fs.push((x, y))[j] by {
                        if j < vp0.len() {
                            assert(valid_pads@[j] == vp0[j]);
                        }
                    }
                }
            },
            None => {
                proof {
                    assert(found_spots(d, offsets@, net@.pins, k + 1) == found_spots(d, offsets@, net@.pins, k as int));
                }
            },
        }
        k = k + 1;
    }
    let ghost pads = found_spots(d, offsets@, net@.pins, n as int);
    let ghost f = old(grid).frame();
    let ghost cc = clearance_cells as int;
    if valid_pads.len() < 2 {
        return None;
    }
    let grid_size = grid.grid_size;
    let mut obstacles: Vec<(i64, i64, Vec<usize>, i64)> = Vec::new();
    let ghost mut ob_pins: Seq<int> = Seq::empty();
    let mut k: usize = 0;
    while k < n
        invariant
            k <= n,
            n == net.pins.len(),
            d == design@,
            grid.wf(),
            *grid == *old(grid),
            f == old(grid).frame(),
            cc == clearance_cells,
            net@.pins.len() == n,
            routable(d, offsets@),
            signal_layers@ == signal_layers_of(d.layers),
            1 <= clearance_cells <= coord_limit(),
            forall|j: int| 0 <= j < obstacles@.len() ==> obstacle_ok(d, #[trigger] obstacles@[j]),
            ob_pins.len() == obstacles@.len(),
            forall|a: int|
                0 <= a < obstacles@.len() ==> 0 <= #[trigger] ob_pins[a] < n && obstacle_zone(
                    d,
                    offsets@,
                    f,
                    cc,
                    net@.pins[ob_pins[a]],
                    obstacles@[a],
                ),
        decreases n - k,
    {
        proof {
            assert(net.pins@[k as int]@ == net@.pins[k as int]);
        }
        match pad_obstacle(design, offsets, grid, &net.pins[k], signal_layers, clearance_cells) {
            Some(ob) => {
                let ghost ob0 = obstacles@;
                proof {
                    assert(obstacle_zone(d, offsets@, f, cc, net@.pins[k as int], ob));
                }
                obstacles.push(ob);
                proof {
                    let op0 = ob_pins;
                    ob_pins = ob_pins.push(k as int);
                    assert forall|a: int|
                        0 <= a < obstacles@.len() implies 0 <= #[trigger] ob_pins[a] < n && obstacle_zone(
                        d,
                        offsets@,
                        f,
                        cc,
                        net@.pins[ob_pins[a]],
                        obstacles@[a],
                    ) by {
                        if a < ob0.len() {
                            assert(obstacles@[a] == ob0[a] && ob_pins[a] == op0[a]);
                        }
                    }
                }
            },
            None => {},
        }
        k = k + 1;
    }
    let ghost hit = obstacles_hit(obstacles@, obstacles@.len() as int, 0);
    proof {
        assert forall|l: int, gx: int, gy: int| #[trigger] hit(l, gx, gy) implies in_pad_zone(d, offsets@, f, cc, net@.pins, gx, gy) by {
            lemma_hit_in_zone(d, offsets@, f, cc, net@.pins, obstacles@, ob_pins, l, gx, gy);
        }
    }
    fill_obstacles(grid, &obstacles, false, Ghost(d));
    proof {
        assert forall|l: int, gx: int, gy: int|
            0 <= l < old(grid).num_layers && old(grid).inside(gx, gy) && old(grid).blocked(l, gx, gy) && !hit(l, gx, gy)
                implies #[trigger] grid.blocked(l, gx, gy) by {
            assert(grid.blocked(l, gx, gy) == if hit(l, gx, gy) { false } else { old(grid).blocked(l, gx, gy) });
        }
        assert(grid.keeps_outside(*old(grid), hit));
    }
    let mut th: Vec<bool> = Vec::new();
    let mut k: usize = 0;
    while k < n
        invariant
            k <= n,
            n == net.pins.len(),
        decreases n - k,
    {
        th.push(is_through_hole(design, &net.pins[k]));
        k = k + 1;
    }
    let mut cells: Vec<(i32, i32, usize)> = Vec::new();
    let (fx, fy, fl) = valid_pads[0];
    let (fgx, fgy) = grid.dsn_to_grid(fx, fy);
    proof {
        assert((valid_pads@[0].0, valid_pads@[0].1) == pads[0]);
        assert((fgx as int, fgy as int) == cell_of(f, pads[0]));
    }
    if th.len() > 0 && th[0] {
        let mut t: usize = 0;
        while t < signal_layers.len()
            invariant
                (fgx as int, fgy as int) == cell_of(f, pads[0]),
                forall|j: int| 0 <= j < cells@.len() ==> ((#[trigger] cells@[j]).0 as int, cells@[j].1 as int) == cell_of(f, pads[0]),
                grid.wf(),
                grid.num_layers == layer_count(d),
                forall|j: int| 0 <= j < signal_layers@.len() ==> #[trigger] signal_layers@[j] < layer_count(d),
                forall|j: int| 0 <= j < signal_layers@.len() ==> used.contains(#[trigger] signal_layers@[j]),
                forall|j: int| 0 <= j < cells@.len() ==> cell_in(grid, #[trigger] cells@[j]),
                forall|j: int| 0 <= j < cells@.len() ==> used.contains((#[trigger] cells@[j]).2),
                t <= signal_layers.len(),
            decreases signal_layers.len() - t,
        {
            add_grid_cell(grid, &mut cells, fgx, fgy, signal_layers[t], Ghost(used));
            t = t + 1;
        }
    } else {
        add_grid_cell(grid, &mut cells, fgx, fgy, fl, Ghost(used));
    }
    let mut net_routed = true;
    let mut wires: Vec<RoutedWire> = Vec::new();
    let mut vias: Vec<RoutedVia> = Vec::new();
    let ghost mut paths: Seq<Seq<(i32, i32, u8)>> = Seq::empty();
    let ghost mut reached: Seq<int> = Seq::empty();
    proof {
        assert forall|j: int| 0 <= j < cells@.len() implies joined_before(f, pads, paths, reached, 0, cell_key(#[trigger] cells@[j])) by {
            assert((cells@[j].0 as int, cells@[j].1 as int) == cell_of(f, pads[0]));
        }
        assert(wires@ =~= Seq::<RoutedWire>::empty());
        assert(vias@ =~= Seq::<RoutedVia>::empty());
        assert(vias_of(f, paths) =~= Seq::<(i64, i64)>::empty());
    }
    let mut i: usize = 1;
    while i < valid_pads.len()
        invariant
            d == design@,
            grid.wf(),
            grid.same_frame(*old(grid)),
            ws.wf(),
            ws.same_shape(*old(ws)),
            heap.wf(),
            grid.width == ws.width && grid.height == ws.height && grid.num_layers == ws.num_layers,
            grid.num_layers == layer_count(d),
            routable(d, offsets@),
            signal_layers@ == signal_layers_of(d.layers),
            forall|j: int| 0 <= j < signal_layers@.len() ==> #[trigger] signal_layers@[j] < layer_count(d),
            forall|j: int|
                0 <= j < valid_pads@.len() ==> (#[trigger] valid_pads@[j]).2 < layer_count(d) && -2
                    * coord_limit() <= valid_pads@[j].0 <= 2 * coord_limit() && -2 * coord_limit()
                    <= valid_pads@[j].1 <= 2 * coord_limit() && planes(d).contains(valid_pads@[j].2),
            forall|j: int| 0 <= j < cells@.len() ==> cell_in(grid, #[trigger] cells@[j]),
            used == planes(d),
            forall|j: int| 0 <= j < signal_layers@.len() ==> used.contains(#[trigger] signal_layers@[j]),
            forall|j: int| 0 <= j < cells@.len() ==> used.contains((#[trigger] cells@[j]).2),
            1 <= clearance_cells <= coord_limit(),
            0 <= pad_radius_cells <= 2 * coord_limit(),
            via_cost >= 1,
            1 <= i <= valid_pads.len(),
            f == old(grid).frame(),
            pads == found_spots(d, offsets@, net@.pins, n as int),
            pads.len() == valid_pads@.len(),
            forall|j: int| 0 <= j < valid_pads@.len() ==> ((#[trigger] valid_pads@[j]).0, valid_pads@[j].1) == pads[j],
            ws.target_indices@.len() == 0,
            paths_join(f, pads, pad_radius_cells as int, paths, reached),
            forall|j: int| 0 <= j < reached.len() ==> #[trigger] reached[j] < i,
            wires_are_runs(d, wires@, runs_of(f, paths), net.name@, trace_width as int),
            forall|j: int|
                0 <= j < cells@.len() ==> joined_before(f, pads, paths, reached, paths.len() as int, cell_key(#[trigger] cells@[j])),
            net_routed ==> reached.len() == i - 1,
            vias_are_spots(vias@, vias_of(f, paths), net.name@),
            cc == clearance_cells,
            grid.keeps_outside(*old(grid), hit),
            forall|l: int, gx: int, gy: int| #[trigger] hit(l, gx, gy) ==> in_pad_zone(d, offsets@, f, cc, net@.pins, gx, gy),
            paths_marked(*grid, paths, cc),
            paths_clear(*old(grid), d, offsets@, f, cc, pad_radius_cells as int, net@.pins, pads, paths, reached),
            forall|j: int, x: int|
                0 <= j < paths.len() && 0 <= x < paths[j].len() ==> old(grid).inside(
                    (#[trigger] paths[j][x]).0 as int,
                    paths[j][x].1 as int,
                ) && 0 <= plane_of(paths[j][x]) < old(grid).num_layers,
            forall|k: int|
                0 <= k < wires@.len() ==> wire_fits(d, #[trigger] wires@[k], net.name@, trace_width as int, planes(d)),
            forall|k: int| 0 <= k < vias@.len() ==> via_fits(#[trigger] vias@[k], net.name@),
            forall|k: int| 0 <= k < wires@.len() ==> wire_in_frame(old(grid).frame(), #[trigger] wires@[k]),
            forall|k: int| 0 <= k < vias@.len() ==> via_in_frame(old(grid).frame(), #[trigger] vias@[k]),
        decreases valid_pads.len() - i,
    {
        let (tx, ty, tl) = valid_pads[i];
        let (tgx, tgy) = grid.dsn_to_grid(tx, ty);
        proof {
            assert((valid_pads@[i as int].0, valid_pads@[i as int].1) == pads[i as int]);
            assert((tgx as int, tgy as int) == cell_of(f, pads[i as int]));
        }
        let start_cells = copy_cells(&cells);
        ws.new_search();
        let mut found: Option<Vec<State>> = None;
        if -0x10_0000 <= tgx && tgx <= 0x10_0000 && -0x10_0000 <= tgy && tgy <= 0x10_0000 {
            let ghost wn = *ws;
            mark_targets(grid, ws, tgx, tgy, pad_radius_cells, tl, signal_layers);
            proof {
                assert forall|x: int| 0 <= x < ws.size() implies !ws.live(x) by {
                    assert(!wn.live(x));
                }
            }
            let ghost wm = *ws;
            let path = bfs(grid, &start_cells, (tgx, tgy), signal_layers, ws, heap, via_cost);
            proof {
                if path is Some {
                    let q = path->0;
                    let tq = path_cells(q@);
                    assert(is_start(start_cells@, q@[0]));
                    let si = start_cells@.index_of((q@[0].gx, q@[0].gy, q@[0].layer as usize));
                    assert(cell_key(cells@[si]) == cell3(tq[0]));
                    let e = q@.last();
                    assert(ws.holds(q@[q@.len() - 1]));
                    assert(ws.target@[ws.index_of(e)]);
                    assert(!wn.target@[wn.at(e.gx as int, e.gy as int, e.layer as int)]) by {
                        lemma_cell(wn.width as int, wn.height as int, wn.num_layers as int, e.gx as int, e.gy as int, e.layer as int);
                    }
                    assert(wm.target@[wm.at(e.gx as int, e.gy as int, e.layer as int)]);
                    assert(tq.last() == (e.gx, e.gy, e.layer));
                    assert forall|x: int| 1 <= x < tq.len() implies cell_step(tq[x - 1], #[trigger] tq[x]) by {
                        assert(step_ok(q@[x - 1], q@[x], signal_layers@));
                    }
                    assert(path_lands(f, pads, pad_radius_cells as int, paths, reached, i as int, q@));
                    assert forall|x: int|
                        1 <= x < q@.len() && old(grid).blocked(
                            (#[trigger] q@[x]).layer as int,
                            q@[x].gx as int,
                            q@[x].gy as int,
                        ) implies ends_near(f, tq[x], pads[i as int], pad_radius_cells as int) || in_pad_zone(
                        d,
                        offsets@,
                        f,
                        cc,
                        net@.pins,
                        q@[x].gx as int,
                        q@[x].gy as int,
                    ) by {
                        let c = q@[x];
                        assert(ws.holds(c));
                        assert(step_ok(q@[x - 1], q@[x], signal_layers@) && enterable(grid, ws, q@[x]));
                        if !hit(c.layer as int, c.gx as int, c.gy as int) {
                            assert(grid.blocked(c.layer as int, c.gx as int, c.gy as int));
                            assert(ws.target@[ws.index_of(c)]);
                            assert(!wn.target@[wn.at(c.gx as int, c.gy as int, c.layer as int)]) by {
                                lemma_cell(wn.width as int, wn.height as int, wn.num_layers as int, c.gx as int, c.gy as int, c.layer as int);
                            }
                            assert(wm.target@[wm.at(c.gx as int, c.gy as int, c.layer as int)]);
                            assert(tq[x] == (c.gx, c.gy, c.layer));
                        }
                    }
                    assert(path_avoids(*old(grid), d, offsets@, f, cc, pad_radius_cells as int, net@.pins, pads, i as int, q@));
                    assert forall|x: int| 0 <= x < q@.len() implies path_in(*old(grid), #[trigger] q@[x])
                        && used.contains(q@[x].layer as usize) by {
                        assert(ws.holds(q@[x]));
                        lemma_path_planes(grid, ws, start_cells@, signal_layers@, q@, used, x);
                    }
                }
            }
            ws.clear_targets();
            found = path;
            proof {
                assert(found matches Some(q) ==> path_lands(f, pads, pad_radius_cells as int, paths, reached, i as int, q@)
                    && path_avoids(*old(grid), d, offsets@, f, cc, pad_radius_cells as int, net@.pins, pads, i as int, q@));
            }
        }
        match found {
            Some(p) => {
                proof {
                    assert forall|j: int| 0 <= j < p@.len() implies grid.inside(
                        (#[trigger] p@[j]).gx as int,
                        p@[j].gy as int,
                    ) by {
                        assert(path_in(*old(grid), p@[j]));
                    }
                }
                let (mut w, mut v) = path_to_wires_and_vias(&p, grid, net.name.as_str(), trace_width, design);
                let ghost tp = path_cells(p@);
                proof {
                    lemma_wire_runs_cells(grid, p@);
                    assert(wires_are_runs(d, w@, path_runs(f, tp), net.name@, trace_width as int));
                    lemma_via_spots_cells(grid, p@, p@.len() as int);
                    assert(tp.len() == p@.len());
                    assert forall|k: int| 0 <= k < v@.len() implies (#[trigger] v@[k]).net_name@ == net.name@
                        && v@[k].padstack_name@ == "via"@ && (v@[k].x, v@[k].y) == cell_vias(f, tp, tp.len() as int)[k] by {
                        assert(via_fits(v@[k], net.name@));
                    }
                    assert(vias_are_spots(v@, cell_vias(f, tp, tp.len() as int), net.name@));
                    assert forall|k: int| 0 <= k < w@.len() implies wire_fits(
                        d,
                        #[trigger] w@[k],
                        net.name@,
                        trace_width as int,
                        planes(d),
                    ) by {
                        assert(wire_fits(d, w@[k], net.name@, trace_width as int, path_layers(p@)));
                        let l = choose|l: usize|
                            path_layers(p@).contains(l) && w@[k].layer@ == layer_name_of(d, l);
                        let j = choose|j: int| 0 <= j < p@.len() && p@[j].layer as usize == l;
                        assert(path_in(*old(grid), p@[j]));
                        assert(used.contains(p@[j].layer as usize));
                        assert(planes(d).contains(l));
                    }
                }
                let ghost wires0 = wires@;
                let ghost vias0 = vias@;
                let ghost wv = w@;
                let ghost vv = v@;
                wires.append(&mut w);
                vias.append(&mut v);
                proof {
                    assert forall|k: int| 0 <= k < wires@.len() implies wire_fits(
                        d,
                        #[trigger] wires@[k],
                        net.name@,
                        trace_width as int,
                        planes(d),
                    ) by {
                        if k >= wires0.len() {
                            assert(wires@[k] == wv[k - wires0.len()]);
                        } else {
                            assert(wires@[k] == wires0[k]);
                        }
                    }
                    assert forall|k: int| 0 <= k < vias@.len() implies via_fits(#[trigger] vias@[k], net.name@) by {
                        if k >= vias0.len() {
                            assert(vias@[k] == vv[k - vias0.len()]);
                        } else {
                            assert(vias@[k] == vias0[k]);
                        }
                    }
                    assert(grid.frame() == old(grid).frame());
                    assert forall|k: int| 0 <= k < wires@.len() implies wire_in_frame(old(grid).frame(), #[trigger] wires@[k]) by {
                        if k >= wires0.len() {
                            assert(wires@[k] == wv[k - wires0.len()]);
                        } else {
                            assert(wires@[k] == wires0[k]);
                        }
                    }
                    assert forall|k: int| 0 <= k < vias@.len() implies via_in_frame(old(grid).frame(), #[trigger] vias@[k]) by {
                        if k >= vias0.len() {
                            assert(vias@[k] == vv[k - vias0.len()]);
                        } else {
                            assert(vias@[k] == vias0[k]);
                        }
                    }
                }
                let ghost paths_before = paths;
                proof {
                    let paths1 = paths.push(tp);
                    let reached1 = reached.push(i as int);
                    lemma_runs_of_push(f, paths, tp);
                    lemma_wires_are_runs_append(d, wires0, wv, runs_of(f, paths), path_runs(f, tp), net.name@, trace_width as int);
                    assert(wires@ == wires0 + wv);
                    assert forall|j: int| 0 <= j < paths1.len() implies #[trigger] path_joins(
                        f,
                        pads,
                        pad_radius_cells as int,
                        paths1,
                        reached1,
                        j,
                    ) by {
                        if j < paths.len() {
                            assert(path_joins(f, pads, pad_radius_cells as int, paths, reached, j));
                            assert(paths1[j] == paths[j] && reached1[j] == reached[j]);
                            lemma_joined_mono(f, pads, paths, reached, paths1, reached1, j, j, cell3(paths[j][0]));
                        } else {
                            assert(paths1[j] == tp && reached1[j] == i);
                            lemma_joined_mono(f, pads, paths, reached, paths1, reached1, j, j, cell3(tp[0]));
                        }
                    }
                    assert forall|a: int, b: int| 0 <= a < b < reached1.len() implies #[trigger] reached1[a] < #[trigger] reached1[b] by {
                        if b < reached.len() {
                            assert(reached[a] < reached[b]);
                        } else {
                            assert(reached1[a] == reached[a]);
                        }
                    }
                    assert forall|j: int| 0 <= j < reached1.len() implies 1 <= #[trigger] reached1[j] < pads.len() by {
                        if j < reached.len() {
                            assert(reached1[j] == reached[j]);
                        }
                    }
                    assert(paths_join(f, pads, pad_radius_cells as int, paths1, reached1));
                    lemma_vias_of_push(f, paths, tp);
                    lemma_vias_append(vias0, vv, vias_of(f, paths), cell_vias(f, tp, tp.len() as int), net.name@);
                    assert(vias@ == vias0 + vv);
                    assert forall|j: int, x: int|
                        0 <= j < paths1.len() && 1 <= x < paths1[j].len() && old(grid).blocked(
                            plane_of(#[trigger] paths1[j][x]),
                            paths1[j][x].0 as int,
                            paths1[j][x].1 as int,
                        ) implies may_near(d, offsets@, f, cc, pad_radius_cells as int, net@.pins, pads, reached1, j, paths1[j][x]) by {
                        if j < paths.len() {
                            assert(paths1[j] == paths[j] && reached1[j] == reached[j]);
                            assert(paths[j][x] == paths1[j][x]);
                        } else {
                            assert(paths1[j] == tp && reached1[j] == i);
                            assert(tp[x] == (p@[x].gx, p@[x].gy, p@[x].layer));
                            assert(p@[x] == p@[x]);
                        }
                    }
                    assert forall|j: int, x: int| 0 <= j < paths1.len() && 0 <= x < paths1[j].len() implies old(grid).inside(
                        (#[trigger] paths1[j][x]).0 as int,
                        paths1[j][x].1 as int,
                    ) && 0 <= plane_of(paths1[j][x]) < old(grid).num_layers by {
                        if j < paths.len() {
                            assert(paths1[j] == paths[j]);
                            assert(paths[j][x] == paths1[j][x]);
                        } else {
                            assert(paths1[j] == tp);
                            assert(tp[x] == (p@[x].gx, p@[x].gy, p@[x].layer));
                            assert(path_in(*old(grid), p@[x]));
                        }
                    }
                    assert forall|j: int| 0 <= j < cells@.len() implies joined_before(
                        f,
                        pads,
                        paths1,
                        reached1,
                        paths1.len() as int,
                        cell_key(#[trigger] cells@[j]),
                    ) by {
                        lemma_joined_mono(f, pads, paths, reached, paths1, reached1, paths.len() as int, paths1.len() as int, cell_key(cells@[j]));
                    }
                    paths = paths1;
                    reached = reached1;
                }
                proof {
                    assert(paths == paths_before.push(tp));
                    assert(cells_marked(*grid, tp, 0, cc));
                }
                let mut j: usize = 0;
                while j < p.len()
                    invariant
                        grid.wf(),
                        grid.same_frame(*old(grid)),
                        grid.num_layers == layer_count(d),
                        forall|x: int| 0 <= x < p@.len() ==> path_in(*old(grid), #[trigger] p@[x]),
                        forall|x: int| 0 <= x < p@.len() ==> used.contains((#[trigger] p@[x]).layer as usize),
                        forall|x: int| 0 <= x < cells@.len() ==> cell_in(grid, #[trigger] cells@[x]),
                        forall|x: int| 0 <= x < cells@.len() ==> used.contains((#[trigger] cells@[x]).2),
                        1 <= clearance_cells <= coord_limit(),
                        j <= p.len(),
                        paths.len() >= 1,
                        paths.last() == tp,
                        tp == path_cells(p@),
                        forall|x: int|
                            0 <= x < cells@.len() ==> joined_before(f, pads, paths, reached, paths.len() as int, cell_key(#[trigger] cells@[x])),
                        paths == paths_before.push(tp),
                        cc == clearance_cells,
                        paths_marked(*grid, paths_before, cc),
                        cells_marked(*grid, tp, j as int, cc),
                        grid.keeps_outside(*old(grid), hit),
                    decreases p.len() - j,
                {
                    let st = p[j];
                    proof {
                        assert(path_in(*old(grid), p@[j as int]));
                        assert(used.contains(p@[j as int].layer as usize));
                    }
                    let ghost cells0 = cells@;
                    add_grid_cell(grid, &mut cells, st.gx as i64, st.gy as i64, st.layer as usize, Ghost(used));
                    proof {
                        let jj = paths.len() - 1;
                        assert(paths[jj][j as int] == tp[j as int]);
                        assert(tp[j as int] == (st.gx, st.gy, st.layer));
                        assert forall|x: int| 0 <= x < cells@.len() implies joined_before(
                            f,
                            pads,
                            paths,
                            reached,
                            paths.len() as int,
                            cell_key(#[trigger] cells@[x]),
                        ) by {
                            if x < cells0.len() {
                                assert(cells@[x] == cells0[x]);
                            } else {
                                assert(cell3(paths[jj][j as int]) == cell_key(cells@[x]));
                            }
                        }
                    }
                    let ghost g1 = *grid;
                    grid.mark_circle(st.layer as usize, st.gx as i64, st.gy as i64, clearance_cells);
                    proof {
                        assert(tp[j as int] == (st.gx, st.gy, st.layer));
                        assert(circle_hit(plane_of(tp[j as int]), tp[j as int].0 as int, tp[j as int].1 as int, cc)
                            == circle_hit(st.layer as usize as int, st.gx as i64 as int, st.gy as i64 as int, clearance_cells as int));
                        lemma_fill_true_keeps(g1, *grid, circle_hit(plane_of(tp[j as int]), tp[j as int].0 as int, tp[j as int].1 as int, cc));
                        lemma_keeps_outside_step(*old(grid), g1, *grid, hit);
                        lemma_keeps_paths_marked(g1, *grid, paths_before, cc);
                        lemma_mark_extends(g1, *grid, tp, j as int, cc);
                    }
                    j = j + 1;
                }
                proof {
                    assert(reached.last() == i);
                    assert forall|jj: int| 0 <= jj < paths.len() implies #[trigger] cells_marked(
                        *grid,
                        paths[jj],
                        paths[jj].len() as int,
                        cc,
                    ) by {
                        if jj < paths_before.len() {
                            assert(paths[jj] == paths_before[jj]);
                            assert(cells_marked(*grid, paths_before[jj], paths_before[jj].len() as int, cc));
                        } else {
                            assert(paths[jj] == tp);
                        }
                    }
                }
                if i < th.len() && th[i] {
                    let mut t: usize = 0;
                    while t < signal_layers.len()
                        invariant
                            (tgx as int, tgy as int) == cell_of(f, pads[i as int]),
                            reached.len() >= 1 && reached.last() == i,
                            paths.len() == reached.len(),
                            forall|x: int|
                                0 <= x < cells@.len() ==> joined_before(f, pads, paths, reached, paths.len() as int, cell_key(#[trigger] cells@[x])),
                            grid.wf(),
                            grid.num_layers == layer_count(d),
                            forall|x: int| 0 <= x < signal_layers@.len() ==> #[trigger] signal_layers@[x] < layer_count(d),
                            forall|x: int| 0 <= x < signal_layers@.len() ==> used.contains(#[trigger] signal_layers@[x]),
                            forall|x: int| 0 <= x < cells@.len() ==> cell_in(grid, #[trigger] cells@[x]),
                            forall|x: int| 0 <= x < cells@.len() ==> used.contains((#[trigger] cells@[x]).2),
                            t <= signal_layers.len(),
                        decreases signal_layers.len() - t,
                    {
                        let ghost cells0 = cells@;
                        add_grid_cell(grid, &mut cells, tgx, tgy, signal_layers[t], Ghost(used));
                        proof {
                            lemma_target_cell_joined(f, pads, paths, reached, cells0, cells@, tgx as int, tgy as int, signal_layers@[t as int]);
                        }
                        t = t + 1;
                    }
                } else {
                    let ghost cells0 = cells@;
                    add_grid_cell(grid, &mut cells, tgx, tgy, tl, Ghost(used));
                    proof {
                        lemma_target_cell_joined(f, pads, paths, reached, cells0, cells@, tgx as int, tgy as int, tl);
                    }
                }
            },
            None => {
                net_routed = false;
            },
        }
        i = i + 1;
    }
    let ghost gb = *grid;
    fill_obstacles(grid, &obstacles, true, Ghost(d));
    proof {
        assert(paths_join(f, pads, pad_radius_cells as int, paths, reached));
        lemma_fill_true_keeps(gb, *grid, hit);
        lemma_keeps_paths_marked(gb, *grid, paths, cc);
        assert forall|l: int, gx: int, gy: int|
            0 <= l < old(grid).num_layers && old(grid).inside(gx, gy) && old(grid).blocked(l, gx, gy) implies #[trigger] grid.blocked(
            l,
            gx,
            gy,
        ) by {
            assert(grid.blocked(l, gx, gy) == if hit(l, gx, gy) { true } else { gb.blocked(l, gx, gy) });
            if !hit(l, gx, gy) {
                assert(gb.blocked(l, gx, gy));
            }
        }
        assert(paths_make(
            d,
            f,
            pad_radius_cells as int,
            pads,
            net.name@,
            trace_width as int,
            wires@,
            vias@,
            net_routed,
            paths,
            reached,
        ));
        assert(route_ok(
            d,
            offsets@,
            *old(grid),
            *grid,
            net@,
            pad_radius_cells as int,
            cc,
            trace_width as int,
            wires@,
            vias@,
            net_routed,
            paths,
            reached,
        ));
        assert(exists|paths: Seq<Seq<(i32, i32, u8)>>, reached: Seq<int>|
            #[trigger] route_ok(
                design@,
                offsets@,
                *old(grid),
                *grid,
                net@,
                pad_radius_cells as int,
                clearance_cells as int,
                trace_width as int,
                wires@,
                vias@,
                net_routed,
                paths,
                reached,
            ));
    }
    let r = Some((wires, vias, net_routed));
    proof {
        let (w, v, ok) = r->0;
        assert(w@ == wires@ && v@ == vias@);
        assert(route_ok(
            design@,
            offsets@,
            *old(grid),
            *grid,
            net@,
            pad_radius_cells as int,
            clearance_cells as int,
            trace_width as int,
            w@,
            v@,
            net_routed,
            paths,
            reached,
        ));
    }
    r
}


// ─── a routing pass ───────────────────────────────────────────────────────────

/// How many of the first `k` of `pins` have a pad that can be found.
pub open spec fn found_pads(d: DesignView, o: Seq<Seq<Seq<(i64, i64)>>>, pins: Seq<PinRefView>, k: int) -> int
    decreases k,
{
    if k <= 0 {
        0
    } else {
        found_pads(d, o, pins, k - 1) + if pad_position(d, o, pins[k - 1].component, pins[k - 1].pin) is Some {
            1int
        } else {
            0int
        }
    }
}

/// The positions of the pads of the first `k` of `pins` that can be found,
/// in pin order.
pub open spec fn found_spots(d: DesignView, o: Seq<Seq<Seq<(i64, i64)>>>, pins: Seq<PinRefView>, k: int) -> Seq<(i64, i64)>
    decreases k,
{
    if k <= 0 {
        Seq::empty()
    } else {
        match pad_position(d, o, pins[k - 1].component, pins[k - 1].pin) {
            Some((x, y, _)) => found_spots(d, o, pins, k - 1).push((x, y)),
            None => found_spots(d, o, pins, k - 1),
        }
    }
}

/// Net `n` has two pins or more, but fewer than two of its pads can be
/// found: it cannot be routed.
pub open spec fn lacks_pads(d: DesignView, o: Seq<Seq<Seq<(i64, i64)>>>, n: int) -> bool {
    d.nets[n].pins.len() >= 2 && found_pads(d, o, d.nets[n].pins, d.nets[n].pins.len() as int) < 2
}

/// How near, in cells, a path must come to a pad's cell to reach it: the
/// clearance in cells plus half the trace width in cells.
pub open spec fn reach_cells(d: DesignView, o: Seq<Seq<Seq<(i64, i64)>>>) -> int {
    clearance_cells_of(clearance_of(d), grid_size_of(d, o)) + trace_width_of(d) / grid_size_of(d, o) / 2
}

/// Some wires of `wires` and some vias of `vias`, each one after another,
/// are made by paths that join pads of net `n` that can be found, from its
/// first one (see [`wires_join`]), on the routing grid; with `all`, every
/// one of them.
pub open spec fn net_joined(
    d: DesignView,
    o: Seq<Seq<Seq<(i64, i64)>>>,
    n: int,
    wires: Seq<RoutedWire>,
    vias: Seq<RoutedVia>,
    all: bool,
) -> bool {
    exists|a: int, b: int, c: int, e: int|
        #![trigger wires.subrange(a, b), vias.subrange(c, e)]
        0 <= a <= b <= wires.len() && 0 <= c <= e <= vias.len() && wires_join(
            d,
            routing_frame(d, o),
            reach_cells(d, o),
            found_spots(d, o, d.nets[n].pins, d.nets[n].pins.len() as int),
            d.nets[n].name,
            trace_width_of(d),
            wires.subrange(a, b),
            vias.subrange(c, e),
            all,
        )
}

/// `name` is not named among `unrouted`.
pub open spec fn routed_in(unrouted: Seq<String>, name: Seq<char>) -> bool {
    !names_view(unrouted).contains(name)
}

/// The clearance in cells on the routing grid.
pub open spec fn clearance_cells_in(d: DesignView, o: Seq<Seq<Seq<(i64, i64)>>>) -> int {
    clearance_cells_of(clearance_of(d), grid_size_of(d, o))
}

/// One net's part of a result held in `wires`, `vias` and `unrouted`: `e`
/// gives the net `e.0`, the paths `e.1` that make its copper and the pads
/// `e.2` they reach (see [`paths_make`]), its wires `wires[e.3..e.4]` and its
/// vias `vias[e.5..e.6]`; the paths reach every pad of the net that can be
/// found unless the net is named unrouted.
pub open spec fn net_route(
    d: DesignView,
    o: Seq<Seq<Seq<(i64, i64)>>>,
    wires: Seq<RoutedWire>,
    vias: Seq<RoutedVia>,
    unrouted: Seq<String>,
    e: (int, Seq<Seq<(i32, i32, u8)>>, Seq<int>, int, int, int, int),
) -> bool {
    &&& 0 <= e.0 < d.nets.len()
    &&& 0 <= e.3 <= e.4 <= wires.len()
    &&& 0 <= e.5 <= e.6 <= vias.len()
    &&& paths_make(
        d,
        routing_frame(d, o),
        reach_cells(d, o),
        found_spots(d, o, d.nets[e.0].pins, d.nets[e.0].pins.len() as int),
        d.nets[e.0].name,
        trace_width_of(d),
        wires.subrange(e.3, e.4),
        vias.subrange(e.5, e.6),
        routed_in(unrouted, d.nets[e.0].name),
        e.1,
        e.2,
    )
}

/// The copper of net route `e2`, routed after `e1`, keeps clear of `e1`'s:
/// every cell of a path of `e2` after its first that lies within the
/// clearance of a cell of a path of `e1`, on the same plane, is one where
/// `e2` may come near other copper (see [`may_near`]): near the pad its path
/// reaches, or in a pad zone of its own net. In particular no path of `e2`
/// enters a cell of `e1` elsewhere.
pub open spec fn kept_apart(d: DesignView, o: Seq<Seq<Seq<(i64, i64)>>>, e1: (int, Seq<Seq<(i32, i32, u8)>>, Seq<int>, int, int, int, int), e2: (int, Seq<Seq<(i32, i32, u8)>>, Seq<int>, int, int, int, int)) -> bool {
    forall|j1: int, x1: int, j2: int, x2: int|
        #![trigger e1.1[j1][x1], e2.1[j2][x2]]
        0 <= j1 < e1.1.len() && 0 <= x1 < e1.1[j1].len() && 0 <= j2 < e2.1.len() && 1 <= x2 < e2.1[j2].len()
            && plane_of(e1.1[j1][x1]) == plane_of(e2.1[j2][x2]) && in_circle(
            e1.1[j1][x1].0 as int,
            e1.1[j1][x1].1 as int,
            clearance_cells_in(d, o),
            e2.1[j2][x2].0 as int,
            e2.1[j2][x2].1 as int,
        ) ==> may_near(
            d,
            o,
            routing_frame(d, o),
            clearance_cells_in(d, o),
            reach_cells(d, o),
            d.nets[e2.0].pins,
            found_spots(d, o, d.nets[e2.0].pins, d.nets[e2.0].pins.len() as int),
            e2.2,
            j2,
            e2.1[j2][x2],
        )
}

/// `routes` are the nets' parts of a result, in the order they were routed
/// (see [`net_route`]), each keeping clear of those routed before it (see
/// [`kept_apart`]).
pub open spec fn routes_in(
    d: DesignView,
    o: Seq<Seq<Seq<(i64, i64)>>>,
    wires: Seq<RoutedWire>,
    vias: Seq<RoutedVia>,
    unrouted: Seq<String>,
    routes: Seq<(int, Seq<Seq<(i32, i32, u8)>>, Seq<int>, int, int, int, int)>,
) -> bool {
    &&& forall|i: int| 0 <= i < routes.len() ==> #[trigger] net_route(d, o, wires, vias, unrouted, routes[i])
    &&& forall|i: int, k: int| 0 <= i < k < routes.len() ==> kept_apart(d, o, #[trigger] routes[i], #[trigger] routes[k])
}

/// The wires and vias of `routes` follow one another and make up all of
/// `wl` wires and `vl` vias: the first route's start at the first, each
/// route's start where the one before ends, and the last ends at the end.
pub open spec fn routes_tile(routes: Seq<(int, Seq<Seq<(i32, i32, u8)>>, Seq<int>, int, int, int, int)>, wl: int, vl: int) -> bool {
    &&& routes.len() == 0 ==> wl == 0 && vl == 0
    &&& routes.len() > 0 ==> routes[0].3 == 0 && routes[0].5 == 0 && routes.last().4 == wl && routes.last().6 == vl
    &&& forall|i: int|
        0 <= i < routes.len() - 1 ==> (#[trigger] routes[i]).4 == routes[i + 1].3 && routes[i].6 == routes[i + 1].5
}

/// The copper of a routing result, net by net: every net of two pins or more
/// of which two pads or more can be found has wires and vias in the result
/// made by paths that join some of those pads from its first one, all of
/// them when the net is not named unrouted (see [`net_route`]); the result
/// holds no other wire or via (see [`routes_tile`]); and the copper of each
/// net keeps clear of that of the nets routed before it (see
/// [`kept_apart`]).
pub open spec fn routed_nets_joined(d: DesignView, o: Seq<Seq<Seq<(i64, i64)>>>, r: RoutingResult) -> bool {
    exists|routes: Seq<(int, Seq<Seq<(i32, i32, u8)>>, Seq<int>, int, int, int, int)>|
        #[trigger] routes_in(d, o, r.wires@, r.vias@, r.unrouted@, routes) && routes_tile(
            routes,
            r.wires@.len() as int,
            r.vias@.len() as int,
        ) && forall|n: int|
            0 <= n < d.nets.len() && d.nets[n].pins.len() >= 2 && found_pads(d, o, d.nets[n].pins, d.nets[n].pins.len() as int)
                >= 2 ==> exists|i: int| 0 <= i < routes.len() && (#[trigger] routes[i]).0 == n
}

/// Every net of two pins or more of which two pads or more can be found has
/// wires and vias that join some of them, from its first one; all of them
/// when it is not named unrouted.
pub proof fn lemma_routed_nets_have_wires(d: DesignView, o: Seq<Seq<Seq<(i64, i64)>>>, r: RoutingResult, n: int)
    requires
        routed_nets_joined(d, o, r),
        0 <= n < d.nets.len(),
        d.nets[n].pins.len() >= 2,
        found_pads(d, o, d.nets[n].pins, d.nets[n].pins.len() as int) >= 2,
    ensures
        net_joined(d, o, n, r.wires@, r.vias@, routed_in(r.unrouted@, d.nets[n].name)),
{
    let routes = choose|routes: Seq<(int, Seq<Seq<(i32, i32, u8)>>, Seq<int>, int, int, int, int)>|
        #[trigger] routes_in(d, o, r.wires@, r.vias@, r.unrouted@, routes) && routes_tile(
            routes,
            r.wires@.len() as int,
            r.vias@.len() as int,
        ) && forall|n: int|
            0 <= n < d.nets.len() && d.nets[n].pins.len() >= 2 && found_pads(d, o, d.nets[n].pins, d.nets[n].pins.len() as int)
                >= 2 ==> exists|i: int| 0 <= i < routes.len() && (#[trigger] routes[i]).0 == n;
    let i = choose|i: int| 0 <= i < routes.len() && (#[trigger] routes[i]).0 == n;
    let e = routes[i];
    assert(net_route(d, o, r.wires@, r.vias@, r.unrouted@, e));
    assert(paths_make(
        d,
        routing_frame(d, o),
        reach_cells(d, o),
        found_spots(d, o, d.nets[n].pins, d.nets[n].pins.len() as int),
        d.nets[n].name,
        trace_width_of(d),
        r.wires@.subrange(e.3, e.4),
        r.vias@.subrange(e.5, e.6),
        routed_in(r.unrouted@, d.nets[n].name),
        e.1,
        e.2,
    ));
}

/// Paths that reach every pad reach some of them.
proof fn lemma_paths_make_some(
    d: DesignView,
    f: (int, int, int, int, int),
    radius: int,
    pads: Seq<(i64, i64)>,
    name: Seq<char>,
    width: int,
    w: Seq<RoutedWire>,
    v: Seq<RoutedVia>,
    all0: bool,
    all1: bool,
    paths: Seq<Seq<(i32, i32, u8)>>,
    reached: Seq<int>,
)
    requires
        paths_make(d, f, radius, pads, name, width, w, v, all0, paths, reached),
        all1 ==> all0,
    ensures
        paths_make(d, f, radius, pads, name, width, w, v, all1, paths, reached),
{
}

/// Every net that lacks pads is named among the unrouted.
pub open spec fn unrouted_covers(d: DesignView, o: Seq<Seq<Seq<(i64, i64)>>>, r: RoutingResult) -> bool {
    forall|n: int| 0 <= n < d.nets.len() && #[trigger] lacks_pads(d, o, n) ==> names_view(r.unrouted@).contains(d.nets[n].name)
}

/// The unrouted names are those of nets of two or more pins, each net once,
/// listed in the order the pass routes them (see [`routed_before`]).
pub open spec fn unrouted_in_order(d: DesignView, pri: Seq<Seq<char>>, u: Seq<String>) -> bool {
    exists|idx: Seq<int>|
        #![trigger idx.len()]
        idx.len() == u.len() && (forall|k: int|
            0 <= k < idx.len() ==> 0 <= #[trigger] idx[k] < d.nets.len() && d.nets[idx[k]].name == u[k]@
                && d.nets[idx[k]].pins.len() >= 2) && (forall|a: int, b: int|
            0 <= a < b < idx.len() ==> routed_before(d, pri, #[trigger] idx[a], #[trigger] idx[b]))
}

/// The unrouted names are in the routing order of some pass: nets of two or
/// more pins, each once.
pub open spec fn unrouted_in_some_order(d: DesignView, u: Seq<String>) -> bool {
    exists|pri: Seq<Seq<char>>| #[trigger] unrouted_in_order(d, pri, u)
}

/// `name` is the name of a net of the design with two or more pads that
/// can be found.
pub open spec fn pads_found(d: DesignView, o: Seq<Seq<Seq<(i64, i64)>>>, name: Seq<char>) -> bool {
    exists|n: int|
        0 <= n < d.nets.len() && #[trigger] d.nets[n].name == name && found_pads(d, o, d.nets[n].pins, d.nets[n].pins.len() as int) >= 2
}

/// Every wire and via belongs to a net with two or more findable pads.
pub open spec fn result_found(d: DesignView, o: Seq<Seq<Seq<(i64, i64)>>>, r: RoutingResult) -> bool {
    &&& forall|k: int| 0 <= k < r.wires@.len() ==> pads_found(d, o, (#[trigger] r.wires@[k]).net_name@)
    &&& forall|k: int| 0 <= k < r.vias@.len() ==> pads_found(d, o, (#[trigger] r.vias@[k]).net_name@)
}

/// Every point of every wire, and every via, lies inside the routing grid
/// (see [`routing_frame`]).
pub open spec fn result_in_frame(d: DesignView, o: Seq<Seq<Seq<(i64, i64)>>>, r: RoutingResult) -> bool {
    &&& forall|k: int| 0 <= k < r.wires@.len() ==> wire_in_frame(routing_frame(d, o), #[trigger] r.wires@[k])
    &&& forall|k: int| 0 <= k < r.vias@.len() ==> via_in_frame(routing_frame(d, o), #[trigger] r.vias@[k])
}

/// What every routing result holds: each wire and via belongs to a net of the
/// design, each wire has the design's trace width (at least 1), two points or
/// more and the name of a grid plane; each via uses the padstack `via`; each
/// unrouted name is that of a net with at least two pins.
pub open spec fn result_fits(d: DesignView, r: RoutingResult) -> bool {
    parts_fit(d, r.wires@, r.vias@, r.unrouted@)
}

pub open spec fn parts_fit(d: DesignView, wires: Seq<RoutedWire>, vias: Seq<RoutedVia>, unrouted: Seq<String>) -> bool {
    wires_fit(d, wires) && vias_fit(d, vias) && unrouted_fit(d, unrouted)
}

/// A wire of some net of the design with at least two pins, with the
/// design's trace width, two points or more and the name of a grid plane.
pub open spec fn wire_of_net(d: DesignView, w: RoutedWire) -> bool {
    exists|n: int|
        0 <= n < d.nets.len() && d.nets[n].pins.len() >= 2 && wire_fits(
            d,
            w,
            #[trigger] d.nets[n].name,
            trace_width_of(d),
            planes(d),
        )
}

/// A via of some net of the design with at least two pins, on the padstack
/// `via`.
pub open spec fn via_of_net(d: DesignView, v: RoutedVia) -> bool {
    exists|n: int| 0 <= n < d.nets.len() && d.nets[n].pins.len() >= 2 && via_fits(v, #[trigger] d.nets[n].name)
}

/// The name of some net of the design with at least two pins.
pub open spec fn names_routable_net(d: DesignView, name: Seq<char>) -> bool {
    exists|n: int| 0 <= n < d.nets.len() && #[trigger] d.nets[n].name == name && d.nets[n].pins.len() >= 2
}

pub open spec fn wires_fit(d: DesignView, wires: Seq<RoutedWire>) -> bool {
    forall|k: int| 0 <= k < wires.len() ==> wire_of_net(d, #[trigger] wires[k])
}

pub open spec fn vias_fit(d: DesignView, vias: Seq<RoutedVia>) -> bool {
    forall|k: int| 0 <= k < vias.len() ==> via_of_net(d, #[trigger] vias[k])
}

pub open spec fn unrouted_fit(d: DesignView, unrouted: Seq<String>) -> bool {
    forall|k: int| 0 <= k < unrouted.len() ==> names_routable_net(d, (#[trigger] unrouted[k])@)
}

fn min_i(a: i64, b: i64) -> (r: i64)
    ensures
        r == if b < a { b } else { a },
{
    if b < a {
        b
    } else {
        a
    }
}

fn max_i(a: i64, b: i64) -> (r: i64)
    ensures
        r == if b > a { b } else { a },
{
    if b > a {
        b
    } else {
        a
    }
}

spec fn box_in(b: (int, int, int, int)) -> bool {
    &&& -2 * coord_limit() <= b.0 <= 2 * coord_limit()
    &&& -2 * coord_limit() <= b.1 <= 2 * coord_limit()
    &&& -2 * coord_limit() <= b.2 <= 2 * coord_limit()
    &&& -2 * coord_limit() <= b.3 <= 2 * coord_limit()
}

/// The box of the board outline and of every pad the nets name (see
/// [`nets_bounds`]).
fn board_bounds(design: &DsnDesign, offsets: &PinOffsets) -> (r: (i64, i64, i64, i64))
    requires
        bounds_ok(design@, offsets@),
    ensures
        (r.0 as int, r.1 as int, r.2 as int, r.3 as int) == nets_bounds(design@, offsets@, design@.nets),
        box_in((r.0 as int, r.1 as int, r.2 as int, r.3 as int)),
{
    let ghost d = design@;
    let ghost o = offsets@;
    let mut b = (design.boundary.min_x, design.boundary.min_y, design.boundary.max_x, design.boundary.max_y);
    let mut n: usize = 0;
    proof {
        assert(d.nets.take(0) =~= Seq::<NetView>::empty());
    }
    while n < design.nets.len()
        invariant
            d == design@,
            o == offsets@,
            bounds_ok(d, o),
            n <= design.nets.len(),
            d.nets.len() == design.nets.len(),
            (b.0 as int, b.1 as int, b.2 as int, b.3 as int) == nets_bounds(d, o, d.nets.take(n as int)),
            box_in((b.0 as int, b.1 as int, b.2 as int, b.3 as int)),
        decreases design.nets.len() - n,
    {
        let net = &design.nets[n];
        let ghost start = nets_bounds(d, o, d.nets.take(n as int));
        proof {
            assert(d.nets[n as int] == net@);
            assert(d.nets.take(n + 1).drop_last() =~= d.nets.take(n as int));
            assert(d.nets.take(n + 1).last() == net@);
        }
        let mut k: usize = 0;
        while k < net.pins.len()
            invariant
                d == design@,
                o == offsets@,
                bounds_ok(d, o),
                k <= net.pins.len(),
                net@.pins.len() == net.pins.len(),
                (b.0 as int, b.1 as int, b.2 as int, b.3 as int) == pins_bounds(d, o, net@.pins.take(k as int), start),
                box_in((b.0 as int, b.1 as int, b.2 as int, b.3 as int)),
            decreases net.pins.len() - k,
        {
            let pin = &net.pins[k];
            proof {
                assert(net@.pins[k as int] == pin@);
                assert(net@.pins.take(k + 1).drop_last() =~= net@.pins.take(k as int));
                lemma_pad_position_range(d, o, pin.component@, pin.pin@);
            }
            proof {
                lemma_pad_inputs_ok(design@, offsets@, pin.component@, pin.pin@);
            }
            match get_pad_position(design, offsets, pin.component.as_str(), pin.pin.as_str()) {
                Some((x, y, _)) => {
                    b = (min_i(b.0, x), min_i(b.1, y), max_i(b.2, x), max_i(b.3, y));
                },
                None => {},
            }
            k = k + 1;
        }
        proof {
            assert(net@.pins.take(net@.pins.len() as int) =~= net@.pins);
        }
        n = n + 1;
    }
    proof {
        assert(d.nets.take(d.nets.len() as int) =~= d.nets);
    }
    b
}

/// The grid of a pass: its cell size and its origin and extent in cells.
fn grid_frame(design: &DsnDesign, offsets: &PinOffsets) -> (r: (i64, i64, i64, usize, usize))
    requires
        routable(design@, offsets@),
    ensures
        1 <= r.0 <= 0x10_0000_0000,
        -0x40_0000_0000 <= r.1 <= 0x40_0000_0000,
        -0x40_0000_0000 <= r.2 <= 0x40_0000_0000,
        1 <= r.3 <= 2048,
        1 <= r.4 <= 2048,
        r.1 == board_box(design@, offsets@).0,
        r.2 == board_box(design@, offsets@).1,
        board_w(design@, offsets@) / (r.0 as int) <= 1500,
        board_h(design@, offsets@) / (r.0 as int) <= 1500,
        (r.1 as int, r.2 as int, r.0 as int, r.3 as int, r.4 as int) == routing_frame(design@, offsets@),
{
    let ghost d = design@;
    let ghost o = offsets@;
    let tw = if design.rules.trace_width < 1 { 1 } else { design.rules.trace_width };
    let cl = if design.rules.clearance < 1 { 1 } else { design.rules.clearance };
    let b = board_bounds(design, offsets);
    let margin = cl * 2;
    let min_x = b.0 - margin;
    let min_y = b.1 - margin;
    let max_x = b.2 + margin;
    let max_y = b.3 + margin;
    let mut grid_size = ((if tw < cl { cl } else { tw }) + 1) / 2;
    let bw = if max_x - min_x < 1 { 1 } else { max_x - min_x };
    let bh = if max_y - min_y < 1 { 1 } else { max_y - min_y };
    proof {
        assert(bw == board_w(d, o));
        assert(bh == board_h(d, o));
        assert(grid_size == first_grid_size(d));
    }
    while bw / grid_size > 1500 || bh / grid_size > 1500
        invariant
            1 <= bw <= 0x100_0000_0000,
            1 <= bh <= 0x100_0000_0000,
            1 <= grid_size <= 0x10_0000_0000,
            bw == board_w(d, o),
            bh == board_h(d, o),
            grown_size(bw as int, bh as int, grid_size as int) == grid_size_of(d, o),
        decreases bw + bh - grid_size,
    {
        assert(grid_size * 1501 <= bw || grid_size * 1501 <= bh) by (nonlinear_arith)
            requires
                bw / grid_size > 1500 || bh / grid_size > 1500,
                grid_size >= 1,
                bw >= 1,
                bh >= 1,
        ;
        let step = if grid_size / 2 < 1 { 1 } else { grid_size / 2 };
        assert(grid_size + step <= bw + bh) by (nonlinear_arith)
            requires
                grid_size * 1501 <= bw || grid_size * 1501 <= bh,
                grid_size >= 1,
                step <= grid_size,
                bw >= 1,
                bh >= 1,
        ;
        assert(step == size_step(grid_size as int));
        assert(grown_size(bw as int, bh as int, grid_size as int) == grown_size(
            bw as int,
            bh as int,
            grid_size + step,
        ));
        grid_size = grid_size + step;
    }
    assert(grown_size(bw as int, bh as int, grid_size as int) == grid_size);
    let w0 = (bw + grid_size - 1) / grid_size;
    let h0 = (bh + grid_size - 1) / grid_size;
    assert(w0 <= 1501) by (nonlinear_arith)
        requires
            bw / grid_size <= 1500,
            w0 == (bw + grid_size - 1) / (grid_size as int),
            grid_size >= 1,
            bw >= 1,
    ;
    assert(h0 <= 1501) by (nonlinear_arith)
        requires
            bh / grid_size <= 1500,
            h0 == (bh + grid_size - 1) / (grid_size as int),
            grid_size >= 1,
            bh >= 1,
    ;
    assert(w0 >= 0 && h0 >= 0) by (nonlinear_arith)
        requires
            w0 == (bw + grid_size - 1) / (grid_size as int),
            h0 == (bh + grid_size - 1) / (grid_size as int),
            grid_size >= 1,
            bw >= 1,
            bh >= 1,
    ;
    (grid_size, min_x, min_y, w0 as usize + 1, h0 as usize + 1)
}


/// Adds the outcome of routing net `idx` to the pass's result: its wires and
/// vias, and its name among the unrouted when it was not routed in full.
fn record_net(
    wires: &mut Vec<RoutedWire>,
    vias: &mut Vec<RoutedVia>,
    unrouted: &mut Vec<String>,
    outcome: Option<(Vec<RoutedWire>, Vec<RoutedVia>, bool)>,
    design: &DsnDesign,
    idx: usize,
    tw: i64,
    Ghost(frame): Ghost<(int, int, int, int, int)>,
)
    requires
        parts_fit(design@, old(wires)@, old(vias)@, old(unrouted)@),
        idx < design@.nets.len(),
        design@.nets[idx as int].pins.len() >= 2,
        tw == trace_width_of(design@),
        outcome matches Some((w, v, _)) ==> (forall|k: int|
            0 <= k < w@.len() ==> wire_fits(
                design@,
                #[trigger] w@[k],
                design@.nets[idx as int].name,
                tw as int,
                planes(design@),
            )) && (forall|k: int| 0 <= k < v@.len() ==> via_fits(#[trigger] v@[k], design@.nets[idx as int].name)),
        outcome matches Some((w, v, _)) ==> (forall|k: int| 0 <= k < w@.len() ==> wire_in_frame(frame, #[trigger] w@[k]))
            && (forall|k: int| 0 <= k < v@.len() ==> via_in_frame(frame, #[trigger] v@[k])),
        forall|k: int| 0 <= k < old(wires)@.len() ==> wire_in_frame(frame, #[trigger] old(wires)@[k]),
        forall|k: int| 0 <= k < old(vias)@.len() ==> via_in_frame(frame, #[trigger] old(vias)@[k]),
    ensures
        outcome matches Some((w, v, _)) ==> final(wires)@ == old(wires)@ + w@ && final(vias)@ == old(vias)@ + v@,
        outcome is None ==> final(wires)@ == old(wires)@ && final(vias)@ == old(vias)@,
        forall|k: int| 0 <= k < final(wires)@.len() ==> wire_in_frame(frame, #[trigger] final(wires)@[k]),
        forall|k: int| 0 <= k < final(vias)@.len() ==> via_in_frame(frame, #[trigger] final(vias)@[k]),
        parts_fit(design@, final(wires)@, final(vias)@, final(unrouted)@),
        names_view(final(unrouted)@) == names_view(old(unrouted)@) || names_view(final(unrouted)@)
            == names_view(old(unrouted)@).push(design@.nets[idx as int].name),
        outcome is None ==> names_view(final(unrouted)@) == names_view(old(unrouted)@).push(
            design@.nets[idx as int].name,
        ),
        outcome matches Some((_, _, ok)) ==> (ok ==> final(unrouted)@ == old(unrouted)@) && (!ok ==> names_view(
            final(unrouted)@,
        ) == names_view(old(unrouted)@).push(design@.nets[idx as int].name)),
{
    let ghost d = design@;
    let mut failed = true;
    match outcome {
        None => {},
        Some((mut w, mut v, ok)) => {
            let ghost w0 = wires@;
            let ghost v0 = vias@;
            let ghost wv = w@;
            let ghost vv = v@;
            wires.append(&mut w);
            vias.append(&mut v);
            proof {
                assert(wires@ == w0 + wv);
                assert(vias@ == v0 + vv);
                assert forall|k: int| 0 <= k < wires@.len() implies wire_in_frame(frame, #[trigger] wires@[k]) by {
                    if k < w0.len() {
                        assert(wires@[k] == w0[k]);
                    } else {
                        assert(wires@[k] == wv[k - w0.len()]);
                    }
                }
                assert forall|k: int| 0 <= k < vias@.len() implies via_in_frame(frame, #[trigger] vias@[k]) by {
                    if k < v0.len() {
                        assert(vias@[k] == v0[k]);
                    } else {
                        assert(vias@[k] == vv[k - v0.len()]);
                    }
                }
                assert forall|k: int| 0 <= k < wires@.len() implies wire_of_net(d, #[trigger] wires@[k]) by {
                    if k < w0.len() {
                        assert(wires@[k] == w0[k]);
                    } else {
                        assert(wires@[k] == wv[k - w0.len()]);
                        assert(wire_fits(d, wires@[k], d.nets[idx as int].name, tw as int, planes(d)));
                    }
                }
                assert forall|k: int| 0 <= k < vias@.len() implies via_of_net(d, #[trigger] vias@[k]) by {
                    if k < v0.len() {
                        assert(vias@[k] == v0[k]);
                    } else {
                        assert(vias@[k] == vv[k - v0.len()]);
                        assert(via_fits(vias@[k], d.nets[idx as int].name));
                    }
                }
            }
            failed = !ok;
        },
    }
    if failed {
        let ghost u0 = unrouted@;
        unrouted.push(design.nets[idx].name.clone());
        proof {
            assert(d.nets[idx as int] == design.nets@[idx as int]@);
            assert(names_view(unrouted@) =~= names_view(u0).push(d.nets[idx as int].name));
            assert forall|k: int| 0 <= k < unrouted@.len() implies names_routable_net(d, (#[trigger] unrouted@[k])@) by {
                if k < u0.len() {
                    assert(unrouted@[k] == u0[k]);
                } else {
                    assert(d.nets[idx as int].name == unrouted@[k]@);
                }
            }
        }
    }
}

/// One routing pass with `via_cost` per change of layer: the nets named in
/// `priority_nets` first, in that order, then the others by descending pin
/// count (see [`routed_before`]); nets of fewer than two pins are skipped.
/// A net is unrouted when fewer than two of its pads can be found or a pad
/// could not be reached; the wires and vias of what was reached are kept.
fn route_single_pass_with_via_cost(
    design: &DsnDesign,
    offsets: &PinOffsets,
    priority_nets: &Vec<String>,
    via_cost: u32,
) -> (r: RoutingResult)
    requires
        routable(design@, offsets@),
        via_cost >= 1,
    ensures
        result_fits(design@, r),
        unrouted_covers(design@, offsets@, r),
        result_in_frame(design@, offsets@, r),
        unrouted_in_order(design@, names_view(priority_nets@), r.unrouted@),
        result_found(design@, offsets@, r),
        routed_nets_joined(design@, offsets@, r),
{
    let ghost d = design@;
    let tw = if design.rules.trace_width < 1 { 1 } else { design.rules.trace_width };
    let cl = if design.rules.clearance < 1 { 1 } else { design.rules.clearance };
    let (grid_size, offset_x, offset_y, grid_w, grid_h) = grid_frame(design, offsets);
    let signal_layers = signal_layer_indices(design);
    let num_layers = if design.layers.len() < 2 { 2 } else { design.layers.len() };
    let mut grid = Grid::new(grid_size, offset_x, offset_y, grid_w, grid_h, num_layers);
    mark_pads(&mut grid, design, offsets, &signal_layers, cl);
    mark_existing_wires(&mut grid, design, &signal_layers, cl);
    let cc0 = cl / grid_size;
    let clearance_cells = if cc0 < 1 { 1 } else { cc0 };
    let tc0 = tw / grid_size / 2;
    let trace_cells = if tc0 < 0 { 0 } else { tc0 };
    let pad_radius_cells = clearance_cells + trace_cells;
    proof {
        assert(pad_radius_cells == reach_cells(d, offsets@));
        assert(clearance_cells == clearance_cells_in(d, offsets@));
    }
    let mut ws = BfsWorkspace::new(grid_w, grid_h, num_layers);
    let mut heap = MinHeap::new();
    let mut wires: Vec<RoutedWire> = Vec::new();
    let mut vias: Vec<RoutedVia> = Vec::new();
    let mut unrouted: Vec<String> = Vec::new();
    let order = net_order(design, priority_nets);
    let ghost mut pos: Seq<int> = Seq::empty();
    let ghost mut routes: Seq<(int, Seq<Seq<(i32, i32, u8)>>, Seq<int>, int, int, int, int)> = Seq::empty();
    proof {
        reveal(routes_hold);
        assert(routes_hold(d, offsets@, grid, wires@, vias@, unrouted@, routes));
    }
    let mut t: usize = 0;
    while t < order.len()
        invariant
            d == design@,
            routable(d, offsets@),
            grid.wf(),
            ws.wf(),
            heap.wf(),
            grid.width == ws.width && grid.height == ws.height && grid.num_layers == ws.num_layers,
            grid.num_layers == layer_count(d),
            signal_layers@ == signal_layers_of(d.layers),
            tw == trace_width_of(d),
            1 <= clearance_cells <= coord_limit(),
            0 <= pad_radius_cells <= 2 * coord_limit(),
            via_cost >= 1,
            is_net_order(d, names_view(priority_nets@), order@),
            t <= order.len(),
            parts_fit(d, wires@, vias@, unrouted@),
            grid.frame() == routing_frame(d, offsets@),
            forall|k: int| 0 <= k < wires@.len() ==> wire_in_frame(routing_frame(d, offsets@), #[trigger] wires@[k]),
            forall|k: int| 0 <= k < vias@.len() ==> via_in_frame(routing_frame(d, offsets@), #[trigger] vias@[k]),
            pos.len() == unrouted@.len(),
            forall|k: int| 0 <= k < wires@.len() ==> pads_found(d, offsets@, (#[trigger] wires@[k]).net_name@),
            forall|k: int| 0 <= k < vias@.len() ==> pads_found(d, offsets@, (#[trigger] vias@[k]).net_name@),
            forall|k: int|
                0 <= k < pos.len() ==> 0 <= #[trigger] pos[k] < t && d.nets[order@[pos[k]] as int].name == unrouted@[k]@
                    && d.nets[order@[pos[k]] as int].pins.len() >= 2,
            forall|a: int, b: int| 0 <= a < b < pos.len() ==> #[trigger] pos[a] < #[trigger] pos[b],
            forall|t2: int|
                0 <= t2 < t && #[trigger] lacks_pads(d, offsets@, order@[t2] as int) ==> names_view(unrouted@).contains(
                    d.nets[order@[t2] as int].name,
                ),
            ws.target_indices@.len() == 0,
            pad_radius_cells == reach_cells(d, offsets@),
            clearance_cells == clearance_cells_in(d, offsets@),
            routes_hold(d, offsets@, grid, wires@, vias@, unrouted@, routes),
            forall|t2: int|
                0 <= t2 < t && d.nets[order@[t2] as int].pins.len() >= 2 && found_pads(
                    d,
                    offsets@,
                    d.nets[order@[t2] as int].pins,
                    d.nets[order@[t2] as int].pins.len() as int,
                ) >= 2 ==> exists|i: int| 0 <= i < routes.len() && (#[trigger] routes[i]).0 == order@[t2] as int,
        decreases order.len() - t,
    {
        let idx = order[t];
        proof {
            assert(order@[t as int] < d.nets.len());
        }
        let net = &design.nets[idx];
        proof {
            assert(d.nets[idx as int] == net@);
        }
        if net.pins.len() >= 2 {
            let ghost grid_pre = grid;
            let outcome = route_net(
                &mut grid,
                &mut ws,
                &mut heap,
                design,
                offsets,
                net,
                &signal_layers,
                tw,
                clearance_cells,
                pad_radius_cells,
                via_cost,
            );
            let ghost u0 = names_view(unrouted@);
            let ghost un0 = unrouted@;
            let ghost wires0 = wires@;
            let ghost vias0 = vias@;
            let ghost oc = outcome;
            let ghost lacking = outcome is None;
            let ghost routes0 = routes;
            record_net(&mut wires, &mut vias, &mut unrouted, outcome, design, idx, tw, Ghost(routing_frame(d, offsets@)));
            proof {
                if let Some((w, v, _)) = oc {
                    assert(found_pads(d, offsets@, d.nets[idx as int].pins, d.nets[idx as int].pins.len() as int) >= 2);
                    assert forall|k: int| 0 <= k < wires@.len() implies pads_found(d, offsets@, (#[trigger] wires@[k]).net_name@) by {
                        if k < wires0.len() {
                            assert(wires@[k] == wires0[k]);
                        } else {
                            assert(wires@[k] == w@[k - wires0.len()]);
                            assert(wire_fits(d, w@[k - wires0.len()], net@.name, tw as int, planes(d)));
                            assert(d.nets[idx as int].name == wires@[k].net_name@);
                        }
                    }
                    assert forall|k: int| 0 <= k < vias@.len() implies pads_found(d, offsets@, (#[trigger] vias@[k]).net_name@) by {
                        if k < vias0.len() {
                            assert(vias@[k] == vias0[k]);
                        } else {
                            assert(vias@[k] == v@[k - vias0.len()]);
                            assert(via_fits(v@[k - vias0.len()], net@.name));
                            assert(d.nets[idx as int].name == vias@[k].net_name@);
                        }
                    }
                }
            }
            proof {
                let pos0 = pos;
                if unrouted@.len() > un0.len() {
                    assert(names_view(unrouted@) == u0.push(d.nets[idx as int].name));
                    pos = pos.push(t as int);
                    assert forall|k: int| 0 <= k < pos.len() implies 0 <= #[trigger] pos[k] < t + 1 && d.nets[order@[pos[k]] as int].name
                        == unrouted@[k]@ && d.nets[order@[pos[k]] as int].pins.len() >= 2 by {
                        assert(names_view(unrouted@)[k] == unrouted@[k]@);
                        if k < pos0.len() {
                            assert(u0[k] == un0[k]@);
                        }
                    }
                } else {
                    assert(names_view(unrouted@) == u0);
                    assert(unrouted@.len() == un0.len());
                    assert forall|k: int| 0 <= k < pos.len() implies 0 <= #[trigger] pos[k] < t + 1 && d.nets[order@[pos[k]] as int].name
                        == unrouted@[k]@ && d.nets[order@[pos[k]] as int].pins.len() >= 2 by {
                        assert(names_view(unrouted@)[k] == unrouted@[k]@);
                        assert(u0[k] == un0[k]@);
                    }
                }
            }
            proof {
                assert(oc matches Some((w, v, ok)) ==> exists|paths: Seq<Seq<(i32, i32, u8)>>, reached: Seq<int>|
                    #[trigger] route_ok(
                        d,
                        offsets@,
                        grid_pre,
                        grid,
                        d.nets[idx as int],
                        reach_cells(d, offsets@),
                        clearance_cells_in(d, offsets@),
                        trace_width_of(d),
                        w@,
                        v@,
                        ok,
                        paths,
                        reached,
                    )) by {
                    if let Some((w, v, ok)) = oc {
                        let (paths, reached) = choose|paths: Seq<Seq<(i32, i32, u8)>>, reached: Seq<int>|
                            #[trigger] route_ok(
                                d,
                                offsets@,
                                grid_pre,
                                grid,
                                net@,
                                pad_radius_cells as int,
                                clearance_cells as int,
                                tw as int,
                                w@,
                                v@,
                                ok,
                                paths,
                                reached,
                            );
                        assert(route_ok(
                            d,
                            offsets@,
                            grid_pre,
                            grid,
                            d.nets[idx as int],
                            reach_cells(d, offsets@),
                            clearance_cells_in(d, offsets@),
                            trace_width_of(d),
                            w@,
                            v@,
                            ok,
                            paths,
                            reached,
                        ));
                    }
                }
                lemma_pass_step(
                    d,
                    offsets@,
                    grid_pre,
                    grid,
                    routes0,
                    wires0,
                    vias0,
                    un0,
                    wires@,
                    vias@,
                    unrouted@,
                    idx as int,
                    oc,
                );
                routes = next_routes(d, offsets@, grid_pre, grid, routes0, idx as int, oc, wires0, vias0);
                assert forall|t2: int|
                    0 <= t2 < t + 1 && d.nets[order@[t2] as int].pins.len() >= 2 && found_pads(
                        d,
                        offsets@,
                        d.nets[order@[t2] as int].pins,
                        d.nets[order@[t2] as int].pins.len() as int,
                    ) >= 2 implies exists|i: int| 0 <= i < routes.len() && (#[trigger] routes[i]).0 == order@[t2] as int by {
                    if t2 < t {
                        let i = choose|i: int| 0 <= i < routes0.len() && (#[trigger] routes0[i]).0 == order@[t2] as int;
                        assert(routes[i] == routes0[i]);
                    } else {
                        assert(order@[t2] == idx);
                        assert(oc is Some);
                        assert(routes[routes0.len() as int].0 == idx);
                    }
                }
                assert forall|t2: int|
                    0 <= t2 < t + 1 && #[trigger] lacks_pads(d, offsets@, order@[t2] as int) implies names_view(unrouted@).contains(
                        d.nets[order@[t2] as int].name,
                    ) by {
                    if t2 < t {
                        let x = u0.index_of(d.nets[order@[t2] as int].name);
                        assert(names_view(unrouted@)[x] == u0[x]);
                    } else {
                        assert(lacking);
                        assert(names_view(unrouted@).last() == d.nets[idx as int].name);
                    }
                }
            }
        }
        t = t + 1;
    }
    proof {
        let idxs = pos.map_values(|x: int| order@[x] as int);
        assert(idxs.len() == unrouted@.len());
        assert forall|a: int, b: int| 0 <= a < b < idxs.len() implies routed_before(
            d,
            names_view(priority_nets@),
            #[trigger] idxs[a],
            #[trigger] idxs[b],
        ) by {
            assert(pos[a] < pos[b]);
            assert(routed_before(d, names_view(priority_nets@), order@[pos[a]] as int, order@[pos[b]] as int));
        }
        assert forall|k: int| 0 <= k < idxs.len() implies 0 <= #[trigger] idxs[k] < d.nets.len() && d.nets[idxs[k]].name
            == unrouted@[k]@ && d.nets[idxs[k]].pins.len() >= 2 by {
            assert(order@[pos[k]] < d.nets.len());
        }
        assert(unrouted_in_order(d, names_view(priority_nets@), unrouted@));
        assert forall|n: int| 0 <= n < d.nets.len() && #[trigger] lacks_pads(d, offsets@, n) implies names_view(unrouted@).contains(d.nets[n].name) by {
            assert(order@.contains(n as usize));
            let t2 = order@.index_of(n as usize);
            assert(lacks_pads(d, offsets@, order@[t2] as int));
        }
        assert forall|n: int|
            0 <= n < d.nets.len() && d.nets[n].pins.len() >= 2 && found_pads(d, offsets@, d.nets[n].pins, d.nets[n].pins.len() as int)
                >= 2 implies exists|i: int| 0 <= i < routes.len() && (#[trigger] routes[i]).0 == n by {
            assert(order@.contains(n as usize));
            let t2 = order@.index_of(n as usize);
            assert(order@[t2] as int == n);
        }
        reveal(routes_hold);
        assert(routes_in(d, offsets@, wires@, vias@, unrouted@, routes));
        assert(routes_tile(routes, wires@.len() as int, vias@.len() as int));
    }
    let r = RoutingResult { wires, vias, unrouted };
    proof {
        assert(routes_in(d, offsets@, r.wires@, r.vias@, r.unrouted@, routes));
        assert(routes_tile(routes, r.wires@.len() as int, r.vias@.len() as int));
        assert(routed_nets_joined(d, offsets@, r));
    }
    r
}

/// One routing pass with the default via cost of 50 (see
/// [`route_single_pass_with_via_cost`]).
pub fn route_single_pass(design: &DsnDesign, offsets: &PinOffsets, priority_nets: &Vec<String>) -> (r: RoutingResult)
    requires
        routable(design@, offsets@),
    ensures
        result_fits(design@, r),
        unrouted_covers(design@, offsets@, r),
        result_in_frame(design@, offsets@, r),
        unrouted_in_order(design@, names_view(priority_nets@), r.unrouted@),
        result_found(design@, offsets@, r),
        routed_nets_joined(design@, offsets@, r),
{
    route_single_pass_with_via_cost(design, offsets, priority_nets, 50)
}


// ─── laws of a routing result ─────────────────────────────────────────────────

proof fn lemma_layer_indexed_finds(layers: Seq<LayerView>, l: usize, i: int, k: int)
    requires
        0 <= i <= k < layers.len(),
        layers[k].index == l,
    ensures
        layer_indexed(layers, l, i) is Some,
    decreases k - i,
{
    if layers[i].index != l {
        lemma_layer_indexed_finds(layers, l, i + 1, k);
    }
}

/// Every routed wire lies on a layer of the design, by name, when the design
/// has a layer with index 0 (as every design read with a structure does).
pub proof fn lemma_wire_layers_named(d: DesignView, r: RoutingResult)
    requires
        result_fits(d, r),
        exists|i: int| 0 <= i < d.layers.len() && (#[trigger] d.layers[i]).index == 0,
    ensures
        forall|k: int|
            0 <= k < r.wires@.len() ==> exists|i: int|
                0 <= i < d.layers.len() && (#[trigger] d.layers[i]).name == (#[trigger] r.wires@[k]).layer@,
{
    assert forall|k: int| 0 <= k < r.wires@.len() implies exists|i: int|
        0 <= i < d.layers.len() && (#[trigger] d.layers[i]).name == (#[trigger] r.wires@[k]).layer@ by {
        let w = r.wires@[k];
        assert(wire_of_net(d, w));
        let n = choose|n: int|
            0 <= n < d.nets.len() && d.nets[n].pins.len() >= 2 && wire_fits(
                d,
                w,
                #[trigger] d.nets[n].name,
                trace_width_of(d),
                planes(d),
            );
        let l = choose|l: usize| planes(d).contains(l) && w.layer@ == layer_name_of(d, l);
        let i0 = if l == 0 {
            choose|i: int| 0 <= i < d.layers.len() && (#[trigger] d.layers[i]).index == 0
        } else {
            choose|i: int| 0 <= i < d.layers.len() && (#[trigger] d.layers[i]).index == l
        };
        lemma_layer_indexed_finds(d.layers, l, 0, i0);
        lemma_layer_indexed(d.layers, l, 0);
        let i = layer_indexed(d.layers, l, 0)->0;
        assert(d.layers[i].name == w.layer@);
    }
}

/// Every routed wire has the design's trace width when that width is at
/// least 1.
pub proof fn lemma_wire_widths(d: DesignView, r: RoutingResult)
    requires
        result_fits(d, r),
        d.rules.trace_width >= 1,
    ensures
        forall|k: int| 0 <= k < r.wires@.len() ==> (#[trigger] r.wires@[k]).width == d.rules.trace_width,
{
    assert forall|k: int| 0 <= k < r.wires@.len() implies (#[trigger] r.wires@[k]).width == d.rules.trace_width by {
        assert(wire_of_net(d, r.wires@[k]));
    }
}

/// A design without a net of two or more pins routes to nothing: no wire, no
/// via, no unrouted net.
pub proof fn lemma_nothing_to_route(d: DesignView, r: RoutingResult)
    requires
        result_fits(d, r),
        forall|n: int| 0 <= n < d.nets.len() ==> (#[trigger] d.nets[n]).pins.len() < 2,
    ensures
        r.wires@.len() == 0,
        r.vias@.len() == 0,
        r.unrouted@.len() == 0,
{
    if r.wires@.len() > 0 {
        assert(wire_of_net(d, r.wires@[0]));
    }
    if r.vias@.len() > 0 {
        assert(via_of_net(d, r.vias@[0]));
    }
    if r.unrouted@.len() > 0 {
        assert(names_routable_net(d, r.unrouted@[0]@));
    }
}

/// A net of fewer than two pins is left alone: no wire or via carries its
/// name and it is not named among the unrouted, when no net of two or more
/// pins shares its name.
pub proof fn lemma_small_net_untouched(d: DesignView, r: RoutingResult, n: int)
    requires
        result_fits(d, r),
        0 <= n < d.nets.len(),
        d.nets[n].pins.len() < 2,
        forall|m: int| 0 <= m < d.nets.len() && (#[trigger] d.nets[m]).name == d.nets[n].name ==> d.nets[m].pins.len() < 2,
    ensures
        forall|k: int| 0 <= k < r.wires@.len() ==> (#[trigger] r.wires@[k]).net_name@ != d.nets[n].name,
        forall|k: int| 0 <= k < r.vias@.len() ==> (#[trigger] r.vias@[k]).net_name@ != d.nets[n].name,
        forall|k: int| 0 <= k < r.unrouted@.len() ==> (#[trigger] r.unrouted@[k])@ != d.nets[n].name,
{
    assert forall|k: int| 0 <= k < r.wires@.len() implies (#[trigger] r.wires@[k]).net_name@ != d.nets[n].name by {
        assert(wire_of_net(d, r.wires@[k]));
    }
    assert forall|k: int| 0 <= k < r.vias@.len() implies (#[trigger] r.vias@[k]).net_name@ != d.nets[n].name by {
        assert(via_of_net(d, r.vias@[k]));
    }
    assert forall|k: int| 0 <= k < r.unrouted@.len() implies (#[trigger] r.unrouted@[k])@ != d.nets[n].name by {
        assert(names_routable_net(d, r.unrouted@[k]@));
    }
}

/// No net is named twice among the unrouted of a routing result, when the
/// design's net names are distinct.
pub proof fn lemma_unrouted_distinct(d: DesignView, u: Seq<String>)
    requires
        unrouted_in_some_order(d, u),
        forall|i: int, j: int|
            0 <= i < j < d.nets.len() ==> (#[trigger] d.nets[i]).name != (#[trigger] d.nets[j]).name,
    ensures
        forall|a: int, b: int| 0 <= a < b < u.len() ==> (#[trigger] u[a])@ != (#[trigger] u[b])@,
{
    let pri = choose|pri: Seq<Seq<char>>| #[trigger] unrouted_in_order(d, pri, u);
    let idx = choose|idx: Seq<int>|
        #![trigger idx.len()]
        idx.len() == u.len() && (forall|k: int|
            0 <= k < idx.len() ==> 0 <= #[trigger] idx[k] < d.nets.len() && d.nets[idx[k]].name == u[k]@
                && d.nets[idx[k]].pins.len() >= 2) && (forall|a: int, b: int|
            0 <= a < b < idx.len() ==> routed_before(d, pri, #[trigger] idx[a], #[trigger] idx[b]));
    assert forall|a: int, b: int| 0 <= a < b < u.len() implies (#[trigger] u[a])@ != (#[trigger] u[b])@ by {
        assert(routed_before(d, pri, idx[a], idx[b]));
        if idx[a] == idx[b] {
            assert(!routed_before(d, pri, idx[a], idx[a]));
        }
        if idx[a] < idx[b] {
            assert(d.nets[idx[a]].name != d.nets[idx[b]].name);
        } else if idx[b] < idx[a] {
            assert(d.nets[idx[b]].name != d.nets[idx[a]].name);
        }
    }
}

/// A net of which fewer than two pads can be found gets no wire and no via,
/// when no net of two or more findable pads shares its name.
pub proof fn lemma_padless_net_unwired(d: DesignView, o: Seq<Seq<Seq<(i64, i64)>>>, r: RoutingResult, n: int)
    requires
        result_found(d, o, r),
        0 <= n < d.nets.len(),
        forall|m: int|
            0 <= m < d.nets.len() && (#[trigger] d.nets[m]).name == d.nets[n].name ==> found_pads(
                d,
                o,
                d.nets[m].pins,
                d.nets[m].pins.len() as int,
            ) < 2,
    ensures
        forall|k: int| 0 <= k < r.wires@.len() ==> (#[trigger] r.wires@[k]).net_name@ != d.nets[n].name,
        forall|k: int| 0 <= k < r.vias@.len() ==> (#[trigger] r.vias@[k]).net_name@ != d.nets[n].name,
{
    assert forall|k: int| 0 <= k < r.wires@.len() implies (#[trigger] r.wires@[k]).net_name@ != d.nets[n].name by {
        assert(pads_found(d, o, r.wires@[k].net_name@));
    }
    assert forall|k: int| 0 <= k < r.vias@.len() implies (#[trigger] r.vias@[k]).net_name@ != d.nets[n].name by {
        assert(pads_found(d, o, r.vias@[k].net_name@));
    }
}

// ─── neighbours and conflict chains ───────────────────────────────────────────

fn copy_names(v: &Vec<String>) -> (r: Vec<String>)
    ensures
        names_view(r@) == names_view(v@),
{
    let mut r: Vec<String> = Vec::new();
    let mut k: usize = 0;
    while k < v.len()
        invariant
            k <= v.len(),
            names_view(r@) == names_view(v@.take(k as int)),
        decreases v.len() - k,
    {
        r.push(v[k].clone());
        proof {
            assert(names_view(v@.take(k + 1)) =~= names_view(v@.take(k as int)).push(v@[k as int]@));
            assert(names_view(r@) =~= names_view(v@.take(k + 1)));
        }
        k = k + 1;
    }
    proof {
        assert(v@.take(v@.len() as int) =~= v@);
    }
    r
}

fn contains_name(v: &Vec<String>, name: &str) -> (r: bool)
    ensures
        r == names_view(v@).contains(name@),
{
    proof {
        lemma_name_position(names_view(v@), name@, 0);
    }
    assert(names_view(v@).len() == v.len());
    match find_name(v, name) {
        Some(k) => {
            proof {
                assert(name_position(names_view(v@), name@, 0) == Some(k as int));
                assert(names_view(v@)[k as int] == name@);
            }
            true
        },
        None => {
            proof {
                if names_view(v@).contains(name@) {
                    let k = names_view(v@).index_of(name@);
                    lemma_name_position_finds(names_view(v@), name@, 0, k);
                }
            }
            false
        },
    }
}

proof fn lemma_name_position_finds(names: Seq<Seq<char>>, name: Seq<char>, i: int, k: int)
    requires
        0 <= i <= k < names.len(),
        names[k] == name,
    ensures
        name_position(names, name, i) is Some,
    decreases k - i,
{
    if names[i] != name {
        lemma_name_position_finds(names, name, i + 1, k);
    }
}

fn names_equal(a: &Vec<String>, b: &Vec<String>) -> (r: bool)
    ensures
        r == (names_view(a@) == names_view(b@)),
{
    if a.len() != b.len() {
        proof {
            assert(names_view(a@).len() != names_view(b@).len());
        }
        return false;
    }
    let mut k: usize = 0;
    while k < a.len()
        invariant
            a.len() == b.len(),
            k <= a.len(),
            forall|j: int| 0 <= j < k ==> a@[j]@ == b@[j]@,
        decreases a.len() - k,
    {
        if !str_eq(a[k].as_str(), b[k].as_str()) {
            proof {
                assert(names_view(a@)[k as int] != names_view(b@)[k as int]);
            }
            return false;
        }
        k = k + 1;
    }
    proof {
        assert(names_view(a@) =~= names_view(b@));
    }
    true
}

/// The pad positions of the nets named in `u`, net by net in the design's
/// order, pin by pin, skipping pads that cannot be found.
pub open spec fn positions_of(d: DesignView, o: Seq<Seq<Seq<(i64, i64)>>>, u: Seq<Seq<char>>, n: int) -> Seq<(i64, i64)>
    decreases n,
{
    if n <= 0 {
        Seq::empty()
    } else if u.contains(d.nets[n - 1].name) {
        positions_of(d, o, u, n - 1) + pin_points(d, o, d.nets[n - 1].pins, d.nets[n - 1].pins.len() as int)
    } else {
        positions_of(d, o, u, n - 1)
    }
}

/// The found pad positions of the first `k` of `pins`.
pub open spec fn pin_points(d: DesignView, o: Seq<Seq<Seq<(i64, i64)>>>, pins: Seq<PinRefView>, k: int) -> Seq<(i64, i64)>
    decreases k,
{
    if k <= 0 {
        Seq::empty()
    } else {
        match pad_position(d, o, pins[k - 1].component, pins[k - 1].pin) {
            Some((x, y, _)) => pin_points(d, o, pins, k - 1).push((x, y)),
            None => pin_points(d, o, pins, k - 1),
        }
    }
}

/// Whether some found pad of `pins` lies within `radius`, in x and in y, of
/// one of `pts`.
pub open spec fn near_any(d: DesignView, o: Seq<Seq<Seq<(i64, i64)>>>, pins: Seq<PinRefView>, pts: Seq<(i64, i64)>, radius: int) -> bool {
    exists|k: int, j: int|
        0 <= k < pins.len() && 0 <= j < pts.len() && pad_near(
            #[trigger] pad_position(d, o, pins[k].component, pins[k].pin),
            #[trigger] pts[j],
            radius,
        )
}

/// Whether the pad `q`, if found, lies within `radius` of `p` in x and in y.
pub open spec fn pad_near(q: Option<(i64, i64, Seq<char>)>, p: (i64, i64), radius: int) -> bool {
    match q {
        Some((x, y, _)) => abs_int(x - p.0) <= radius && abs_int(y - p.1) <= radius,
        None => false,
    }
}

/// The neighbours among the first `n` nets: each net not named in `u`, once
/// by name, with a found pad near a pad of an unrouted net.
pub open spec fn neighbours_of(d: DesignView, o: Seq<Seq<Seq<(i64, i64)>>>, u: Seq<Seq<char>>, radius: int, n: int) -> Seq<Seq<char>>
    decreases n,
{
    if n <= 0 {
        Seq::empty()
    } else {
        let acc = neighbours_of(d, o, u, radius, n - 1);
        let net = d.nets[n - 1];
        if u.contains(net.name) || acc.contains(net.name) {
            acc
        } else if near_any(d, o, net.pins, positions_of(d, o, u, d.nets.len() as int), radius) {
            acc.push(net.name)
        } else {
            acc
        }
    }
}

/// The search radius for neighbours: trace width plus clearance (each at
/// least 1), times five plus three per stall.
pub open spec fn neighbour_radius(d: DesignView, radius_factor: int) -> int {
    (trace_width_of(d) + clearance_of(d)) * (5 + radius_factor * 3)
}

fn pin_positions(design: &DsnDesign, offsets: &PinOffsets, net: &crate::dsn::Net, out: &mut Vec<(i64, i64)>)
    requires
        routable(design@, offsets@),
    ensures
        final(out)@ == old(out)@ + pin_points(design@, offsets@, net@.pins, net@.pins.len() as int),
        forall|j: int| 0 <= j < final(out)@.len() - old(out)@.len() ==> -2 * coord_limit() <= (#[trigger] final(out)@[old(out)@.len() + j]).0 <= 2 * coord_limit() && -2 * coord_limit() <= final(out)@[old(out)@.len() + j].1 <= 2 * coord_limit(),
{
    let ghost d = design@;
    let ghost o = offsets@;
    let ghost base = out@;
    let mut k: usize = 0;
    while k < net.pins.len()
        invariant
            d == design@,
            o == offsets@,
            routable(d, o),
            k <= net.pins.len(),
            net@.pins.len() == net.pins.len(),
            out@ == base + pin_points(d, o, net@.pins, k as int),
            forall|j: int| 0 <= j < out@.len() - base.len() ==> -2 * coord_limit() <= (#[trigger] out@[base.len() + j]).0 <= 2 * coord_limit() && -2 * coord_limit() <= out@[base.len() + j].1 <= 2 * coord_limit(),
        decreases net.pins.len() - k,
    {
        let pin = &net.pins[k];
        proof {
            assert(net@.pins[k as int] == pin@);
            lemma_pad_position_range(d, o, pin.component@, pin.pin@);
        }
        proof {
            lemma_pad_inputs_ok(design@, offsets@, pin.component@, pin.pin@);
        }
        match get_pad_position(design, offsets, pin.component.as_str(), pin.pin.as_str()) {
            Some((x, y, _)) => {
                let ghost o0 = out@;
                out.push((x, y));
                proof {
                    assert(out@ =~= base + pin_points(d, o, net@.pins, k + 1));
                    assert forall|j: int| 0 <= j < out@.len() - base.len() implies -2 * coord_limit() <= (#[trigger] out@[base.len() + j]).0 <= 2 * coord_limit() && -2 * coord_limit() <= out@[base.len() + j].1 <= 2 * coord_limit() by {
                        if base.len() + j < o0.len() {
                            assert(out@[base.len() + j] == o0[base.len() + j]);
                        }
                    }
                }
            },
            None => {},
        }
        k = k + 1;
    }
}

/// Whether some found pad of `net` lies within `radius` of one of `pts`.
fn net_is_near(design: &DsnDesign, offsets: &PinOffsets, net: &crate::dsn::Net, pts: &Vec<(i64, i64)>, radius: i64) -> (r: bool)
    requires
        routable(design@, offsets@),
        forall|j: int| 0 <= j < pts@.len() ==> -2 * coord_limit() <= (#[trigger] pts@[j]).0 <= 2 * coord_limit() && -2 * coord_limit() <= pts@[j].1 <= 2 * coord_limit(),
    ensures
        r == near_any(design@, offsets@, net@.pins, pts@, radius as int),
{
    let ghost d = design@;
    let ghost o = offsets@;
    let mut k: usize = 0;
    while k < net.pins.len()
        invariant
            d == design@,
            o == offsets@,
            routable(d, o),
            k <= net.pins.len(),
            net@.pins.len() == net.pins.len(),
            forall|j: int| 0 <= j < pts@.len() ==> -2 * coord_limit() <= (#[trigger] pts@[j]).0 <= 2 * coord_limit() && -2 * coord_limit() <= pts@[j].1 <= 2 * coord_limit(),
            forall|a: int, b: int| 0 <= a < k && 0 <= b < pts@.len() ==> !pad_near(#[trigger] pad_position(d, o, net@.pins[a].component, net@.pins[a].pin), #[trigger] pts@[b], radius as int),
        decreases net.pins.len() - k,
    {
        let pin = &net.pins[k];
        proof {
            assert(net@.pins[k as int] == pin@);
            lemma_pad_position_range(d, o, pin.component@, pin.pin@);
        }
        proof {
            lemma_pad_inputs_ok(design@, offsets@, pin.component@, pin.pin@);
        }
        match get_pad_position(design, offsets, pin.component.as_str(), pin.pin.as_str()) {
            Some((x, y, l)) => {
                let mut j: usize = 0;
                while j < pts.len()
                    invariant
                        d == design@,
                        o == offsets@,
                        k < net@.pins.len(),
                        pad_position(d, o, net@.pins[k as int].component, net@.pins[k as int].pin) == Some((x, y, l@)),
                        j <= pts.len(),
                        -2 * coord_limit() <= x <= 2 * coord_limit(),
                        -2 * coord_limit() <= y <= 2 * coord_limit(),
                        forall|b: int| 0 <= b < pts@.len() ==> -2 * coord_limit() <= (#[trigger] pts@[b]).0 <= 2 * coord_limit() && -2 * coord_limit() <= pts@[b].1 <= 2 * coord_limit(),
                        forall|b: int| 0 <= b < j ==> !(abs_int(x - (#[trigger] pts@[b]).0) <= radius && abs_int(y - pts@[b].1) <= radius),
                    decreases pts.len() - j,
                {
                    let (ux, uy) = pts[j];
                    let ddx = if x - ux < 0 { ux - x } else { x - ux };
                    let ddy = if y - uy < 0 { uy - y } else { y - uy };
                    let dist = if ddx < ddy { ddy } else { ddx };
                    if dist <= radius {
                        proof {
                            assert(pad_near(pad_position(d, o, net@.pins[k as int].component, net@.pins[k as int].pin), pts@[j as int], radius as int));
                        }
                        return true;
                    }
                    j = j + 1;
                }
                proof {
                    assert forall|b: int| 0 <= b < pts@.len() implies !pad_near(pad_position(d, o, net@.pins[k as int].component, net@.pins[k as int].pin), #[trigger] pts@[b], radius as int) by {
                        assert(!(abs_int(x - pts@[b].0) <= radius && abs_int(y - pts@[b].1) <= radius));
                    }
                }
            },
            None => {},
        }
        proof {
            assert forall|a: int, b: int| 0 <= a < k + 1 && 0 <= b < pts@.len() implies !pad_near(#[trigger] pad_position(d, o, net@.pins[a].component, net@.pins[a].pin), #[trigger] pts@[b], radius as int) by {
                if a == k {
                    assert(!pad_near(pad_position(d, o, net@.pins[k as int].component, net@.pins[k as int].pin), pts@[b], radius as int));
                }
            }
        }
        k = k + 1;
    }
    false
}

/// The nets near the unrouted ones (see [`neighbours_of`]): likely rivals
/// for the same routing channels. The search radius grows with
/// `radius_factor`.
fn find_spatial_neighbors(
    design: &DsnDesign,
    offsets: &PinOffsets,
    unrouted: &Vec<String>,
    radius_factor: usize,
) -> (r: Vec<String>)
    requires
        routable(design@, offsets@),
        radius_factor <= 0x1_0000,
    ensures
        names_view(r@) == neighbours_of(
            design@,
            offsets@,
            names_view(unrouted@),
            neighbour_radius(design@, radius_factor as int),
            design@.nets.len() as int,
        ),
{
    let ghost d = design@;
    let ghost o = offsets@;
    let ghost u = names_view(unrouted@);
    let tw = if design.rules.trace_width < 1 { 1 } else { design.rules.trace_width };
    let cl = if design.rules.clearance < 1 { 1 } else { design.rules.clearance };
    assert((tw + cl) * (5 + radius_factor * 3) <= 0x20_0000_0000 * 0x4_0000) by (nonlinear_arith)
        requires
            1 <= tw <= 0x10_0000_0000,
            1 <= cl <= 0x10_0000_0000,
            radius_factor <= 0x1_0000,
    ;
    let radius = (tw + cl) * (5 + radius_factor as i64 * 3);
    let mut positions: Vec<(i64, i64)> = Vec::new();
    let mut n: usize = 0;
    while n < design.nets.len()
        invariant
            d == design@,
            o == offsets@,
            u == names_view(unrouted@),
            routable(d, o),
            n <= design.nets.len(),
            d.nets.len() == design.nets.len(),
            positions@ == positions_of(d, o, u, n as int),
            forall|j: int| 0 <= j < positions@.len() ==> -2 * coord_limit() <= (#[trigger] positions@[j]).0 <= 2 * coord_limit() && -2 * coord_limit() <= positions@[j].1 <= 2 * coord_limit(),
        decreases design.nets.len() - n,
    {
        let net = &design.nets[n];
        proof {
            assert(d.nets[n as int] == net@);
        }
        if contains_name(unrouted, net.name.as_str()) {
            let ghost p0 = positions@;
            pin_positions(design, offsets, net, &mut positions);
            proof {
                assert forall|j: int| 0 <= j < positions@.len() implies -2 * coord_limit() <= (#[trigger] positions@[j]).0 <= 2 * coord_limit() && -2 * coord_limit() <= positions@[j].1 <= 2 * coord_limit() by {
                    if j < p0.len() {
                        assert(positions@[j] == p0[j]);
                    } else {
                        assert(positions@[p0.len() + (j - p0.len())] == positions@[j]);
                    }
                }
            }
        }
        n = n + 1;
    }
    let mut neighbors: Vec<String> = Vec::new();
    let mut n: usize = 0;
    while n < design.nets.len()
        invariant
            d == design@,
            o == offsets@,
            u == names_view(unrouted@),
            routable(d, o),
            n <= design.nets.len(),
            d.nets.len() == design.nets.len(),
            positions@ == positions_of(d, o, u, d.nets.len() as int),
            forall|j: int| 0 <= j < positions@.len() ==> -2 * coord_limit() <= (#[trigger] positions@[j]).0 <= 2 * coord_limit() && -2 * coord_limit() <= positions@[j].1 <= 2 * coord_limit(),
            radius == neighbour_radius(d, radius_factor as int),
            names_view(neighbors@) == neighbours_of(d, o, u, radius as int, n as int),
        decreases design.nets.len() - n,
    {
        let net = &design.nets[n];
        proof {
            assert(d.nets[n as int] == net@);
        }
        if !contains_name(unrouted, net.name.as_str()) && !contains_name(&neighbors, net.name.as_str()) {
            if net_is_near(design, offsets, net, &positions, radius) {
                neighbors.push(net.name.clone());
                proof {
                    assert(names_view(neighbors@) =~= neighbours_of(d, o, u, radius as int, n + 1));
                }
            }
        }
        n = n + 1;
    }
    neighbors
}


/// Lexicographic order of strings by code point (the order of `String`).
pub open spec fn text_less(a: Seq<char>, b: Seq<char>) -> bool
    decreases a.len(),
{
    if b.len() == 0 {
        false
    } else if a.len() == 0 {
        true
    } else if (a[0] as u32) < (b[0] as u32) {
        true
    } else if (a[0] as u32) > (b[0] as u32) {
        false
    } else {
        text_less(a.drop_first(), b.drop_first())
    }
}

fn str_less(a: &str, b: &str) -> (r: bool)
    ensures
        r == text_less(a@, b@),
{
    let x = crate::text::chars_of(a);
    let y = crate::text::chars_of(b);
    let mut i: usize = 0;
    proof {
        assert(a@.skip(0) =~= a@);
        assert(b@.skip(0) =~= b@);
    }
    while i < x.len() && i < y.len()
        invariant
            x@ == a@,
            y@ == b@,
            i <= x@.len(),
            i <= y@.len(),
            text_less(a@, b@) == text_less(a@.skip(i as int), b@.skip(i as int)),
        decreases x.len() - i,
    {
        let cx = x[i] as u32;
        let cy = y[i] as u32;
        proof {
            assert(a@.skip(i as int)[0] == x@[i as int]);
            assert(b@.skip(i as int)[0] == y@[i as int]);
        }
        if cx < cy {
            return true;
        }
        if cx > cy {
            return false;
        }
        proof {
            assert(a@.skip(i as int).drop_first() =~= a@.skip(i + 1));
            assert(b@.skip(i as int).drop_first() =~= b@.skip(i + 1));
        }
        i = i + 1;
    }
    i < y.len()
}

/// A character's code point as a `u32` is the code point itself, and two
/// characters with one code point are one character.
proof fn lemma_char_code(c: char, e: char)
    ensures
        (c as u32) as int == c as int,
        (c as int) == (e as int) ==> c == e,
{
}

proof fn lemma_less_irreflexive(a: Seq<char>)
    ensures
        !text_less(a, a),
    decreases a.len(),
{
    if a.len() > 0 {
        lemma_less_irreflexive(a.drop_first());
    }
}

proof fn lemma_less_asymmetric(a: Seq<char>, b: Seq<char>)
    ensures
        text_less(a, b) ==> !text_less(b, a),
    decreases a.len(),
{
    if a.len() > 0 && b.len() > 0 && (a[0] as u32) == (b[0] as u32) {
        lemma_less_asymmetric(a.drop_first(), b.drop_first());
    }
}

proof fn lemma_less_transitive(a: Seq<char>, b: Seq<char>, c: Seq<char>)
    requires
        text_less(a, b),
        text_less(b, c),
    ensures
        text_less(a, c),
    decreases a.len(),
{
    if a.len() > 0 && b.len() > 0 && c.len() > 0 && (a[0] as u32) == (b[0] as u32) && (b[0] as u32) == (c[0] as u32) {
        lemma_less_transitive(a.drop_first(), b.drop_first(), c.drop_first());
    }
}

proof fn lemma_less_total(a: Seq<char>, b: Seq<char>)
    ensures
        text_less(a, b) || text_less(b, a) || a == b,
    decreases a.len(),
{
    if a.len() > 0 && b.len() > 0 && (a[0] as u32) == (b[0] as u32) {
        lemma_less_total(a.drop_first(), b.drop_first());
        lemma_char_code(a[0], b[0]);
        lemma_char_code(b[0], a[0]);
        assert(a[0] == b[0]);
        if a.drop_first() == b.drop_first() {
            assert(a =~= seq![a[0]] + a.drop_first());
            assert(b =~= seq![b[0]] + b.drop_first());
        }
    } else if a.len() == 0 && b.len() == 0 {
        assert(a =~= b);
    }
}

/// Not after: `a` comes before `b` or equals it.
pub open spec fn text_le(a: Seq<char>, b: Seq<char>) -> bool {
    !text_less(b, a)
}

proof fn lemma_le_transitive(a: Seq<char>, b: Seq<char>, c: Seq<char>)
    requires
        text_le(a, b),
        text_le(b, c),
    ensures
        text_le(a, c),
{
    lemma_less_total(a, b);
    lemma_less_total(b, c);
    if text_less(a, b) && text_less(b, c) {
        lemma_less_transitive(a, b, c);
        lemma_less_asymmetric(a, c);
    }
}

/// Names in the order of `String`.
pub open spec fn names_sorted(s: Seq<Seq<char>>) -> bool {
    forall|p: int, q: int| 0 <= p < q < s.len() ==> text_le(#[trigger] s[p], #[trigger] s[q])
}

proof fn lemma_swap_multiset(s: Seq<Seq<char>>, i: int, j: int)
    requires
        0 <= i < s.len(),
        0 <= j < s.len(),
        i != j,
    ensures
        s.update(i, s[j]).update(j, s[i]).to_multiset() == s.to_multiset(),
{
    broadcast use vstd::seq_lib::to_multiset_update;
    broadcast use vstd::seq_lib::to_multiset_contains;
    broadcast use vstd::multiset::group_multiset_axioms;
    assert(s.contains(s[i]));
    assert(s.contains(s[j]));
    let t = s.update(i, s[j]);
    assert(t[j] == s[j]);
    assert(t.to_multiset() == s.to_multiset().insert(s[j]).remove(s[i]));
    assert(t.update(j, s[i]).to_multiset() == t.to_multiset().insert(s[i]).remove(s[j]));
    assert(s.to_multiset().insert(s[j]).remove(s[i]).insert(s[i]).remove(s[j]) =~= s.to_multiset());
}

/// Sorts names into the order of `String` (see [`text_less`]), by insertion.
fn sort_names(v: &mut Vec<String>)
    ensures
        names_view(final(v)@).to_multiset() == names_view(old(v)@).to_multiset(),
        names_sorted(names_view(final(v)@)),
{
    let ghost s0 = names_view(v@);
    let n = v.len();
    if n == 0 {
        return;
    }
    let mut i: usize = 1;
    while i < n
        invariant
            v@.len() == n,
            1 <= i <= n,
            names_view(v@).to_multiset() == s0.to_multiset(),
            forall|p: int, q: int| 0 <= p < q < i ==> text_le(#[trigger] names_view(v@)[p], #[trigger] names_view(v@)[q]),
        decreases n - i,
    {
        let mut j = i;
        while j > 0 && str_less(v[j].as_str(), v[j - 1].as_str())
            invariant
                v@.len() == n,
                j <= i < n,
                names_view(v@).to_multiset() == s0.to_multiset(),
                forall|p: int, q: int|
                    0 <= p < q <= i && p != j && q != j ==> text_le(#[trigger] names_view(v@)[p], #[trigger] names_view(v@)[q]),
                forall|q: int| j < q <= i ==> text_le(names_view(v@)[j as int], #[trigger] names_view(v@)[q]),
            decreases j,
        {
            let ghost s = names_view(v@);
            let a = v[j - 1].clone();
            let b = v[j].clone();
            v.set(j - 1, b);
            v.set(j, a);
            proof {
                let t = names_view(v@);
                assert(t =~= s.update(j - 1, s[j as int]).update(j as int, s[j - 1]));
                lemma_swap_multiset(s, j - 1, j as int);
                lemma_less_asymmetric(s[j as int], s[j - 1]);
                assert forall|p: int, q: int|
                    0 <= p < q <= i && p != j - 1 && q != j - 1 implies text_le(#[trigger] t[p], #[trigger] t[q]) by {
                    if p == j {
                        assert(t[p] == s[j - 1]);
                        assert(text_le(s[j - 1], s[q]));
                    } else if q == j {
                        assert(t[q] == s[j - 1]);
                        assert(text_le(s[p], s[j - 1]));
                    }
                }
                assert forall|q: int| j - 1 < q <= i implies text_le(t[j - 1], #[trigger] t[q]) by {
                    if q > j {
                        assert(text_le(s[j as int], s[q]));
                    }
                }
            }
            j = j - 1;
        }
        proof {
            let s = names_view(v@);
            if j > 0 {
                lemma_less_total(s[j as int], s[j - 1]);
            }
            assert forall|p: int, q: int| 0 <= p < q < i + 1 implies text_le(#[trigger] s[p], #[trigger] s[q]) by {
                if q == j {
                    if p < j - 1 {
                        lemma_le_transitive(s[p], s[j - 1], s[j as int]);
                    }
                } else if p == j {
                }
            }
        }
        i = i + 1;
    }
}

fn contains_names(seen: &Vec<Vec<String>>, x: &Vec<String>) -> (r: bool)
    ensures
        r == exists|k: int| 0 <= k < seen@.len() && names_view((#[trigger] seen@[k])@) == names_view(x@),
{
    let mut k: usize = 0;
    while k < seen.len()
        invariant
            k <= seen.len(),
            forall|j: int| 0 <= j < k ==> names_view((#[trigger] seen@[j])@) != names_view(x@),
        decreases seen.len() - k,
    {
        if names_equal(&seen[k], x) {
            return true;
        }
        k = k + 1;
    }
    false
}

/// The names a conflict chain adds after its first `start`: each that of a
/// net of the design with two pins or more, and none named before it.
pub open spec fn chain_grows(d: DesignView, chain: Seq<Seq<char>>, start: int) -> bool {
    forall|j: int|
        start <= j < chain.len() ==> names_routable_net(d, #[trigger] chain[j]) && !chain.take(j).contains(chain[j])
}

/// The transitive conflict chain: starting from the unrouted nets, routes
/// the chain first, adds the nets left unrouted that are not in it yet, and
/// repeats, at most ten times, until a pass routes everything, adds nothing,
/// or leaves a set of unrouted nets it left before.
fn build_conflict_chain(
    design: &DsnDesign,
    offsets: &PinOffsets,
    initial_unrouted: &Vec<String>,
    via_cost: u32,
) -> (r: Vec<String>)
    requires
        routable(design@, offsets@),
        via_cost >= 1,
    ensures
        names_view(r@).len() >= names_view(initial_unrouted@).len(),
        names_view(r@).take(initial_unrouted@.len() as int) == names_view(initial_unrouted@),
        chain_grows(design@, names_view(r@), initial_unrouted@.len() as int),
{
    let mut chain = copy_names(initial_unrouted);
    let mut seen: Vec<Vec<String>> = Vec::new();
    let mut iter: usize = 0;
    while iter < 10
        invariant
            routable(design@, offsets@),
            via_cost >= 1,
            names_view(chain@).len() >= names_view(initial_unrouted@).len(),
            names_view(chain@).take(initial_unrouted@.len() as int) == names_view(initial_unrouted@),
            chain_grows(design@, names_view(chain@), initial_unrouted@.len() as int),
        decreases 10 - iter,
    {
        let result = route_single_pass_with_via_cost(design, offsets, &chain, via_cost);
        if result.unrouted.len() == 0 {
            return chain;
        }
        let mut changed = false;
        let mut k: usize = 0;
        while k < result.unrouted.len()
            invariant
                k <= result.unrouted.len(),
                result_fits(design@, result),
                names_view(chain@).len() >= names_view(initial_unrouted@).len(),
                names_view(chain@).take(initial_unrouted@.len() as int) == names_view(initial_unrouted@),
                chain_grows(design@, names_view(chain@), initial_unrouted@.len() as int),
            decreases result.unrouted.len() - k,
        {
            if !contains_name(&chain, result.unrouted[k].as_str()) {
                let ghost c0 = names_view(chain@);
                chain.push(result.unrouted[k].clone());
                proof {
                    let c1 = names_view(chain@);
                    let x = result.unrouted@[k as int]@;
                    assert(c1 =~= c0.push(x));
                    assert(c1.take(initial_unrouted@.len() as int) =~= c0.take(initial_unrouted@.len() as int));
                    assert(names_routable_net(design@, x));
                    assert forall|j: int| initial_unrouted@.len() <= j < c1.len() implies names_routable_net(
                        design@,
                        #[trigger] c1[j],
                    ) && !c1.take(j).contains(c1[j]) by {
                        if j < c0.len() {
                            assert(c1.take(j) =~= c0.take(j));
                        } else {
                            assert(c1.take(j) =~= c0);
                        }
                    }
                }
                changed = true;
            }
            k = k + 1;
        }
        if !changed {
            break;
        }
        let mut sorted = copy_names(&result.unrouted);
        sort_names(&mut sorted);
        if contains_names(&seen, &sorted) {
            break;
        }
        seen.push(sorted);
        iter = iter + 1;
    }
    chain
}

/// The via costs of the first passes, in the order they are tried.
pub open spec fn first_via_costs() -> Seq<u32> {
    seq![50u32, 40, 60, 30, 70]
}

/// The via costs of the rip-up passes, in the order they are tried.
pub open spec fn via_costs() -> Seq<u32> {
    seq![50u32, 40, 60, 30, 70, 20, 80, 45, 55, 35, 25, 65, 15, 75]
}

fn first_via_cost_at(k: usize) -> (r: u32)
    requires
        k < 5,
    ensures
        r == first_via_costs()[k as int],
        r >= 1,
{
    let costs: [u32; 5] = [50, 40, 60, 30, 70];
    costs[k]
}

fn via_cost_at(k: usize) -> (r: u32)
    requires
        k < 14,
    ensures
        r == via_costs()[k as int],
        r >= 1,
{
    let via_costs: [u32; 14] = [50, 40, 60, 30, 70, 20, 80, 45, 55, 35, 25, 65, 15, 75];
    via_costs[k]
}

/// Routes the design: a first pass at via cost 50, with four more via costs
/// tried while nets stay unrouted; then rip-up and retry, routing the
/// unrouted nets first (with the nets near them once the count of unrouted
/// nets stalls), over up to twenty passes; then, if nets are still
/// unrouted, passes led by transitive conflict chains. The result kept is
/// always that of the pass with the fewest unrouted nets so far (a
/// different set of the same size also replaces it during rip-up). Every
/// net of two pins or more that is not named unrouted has wires that join
/// all its pads that can be found (see [`routed_nets_joined`]).
pub fn route(design: &DsnDesign, offsets: &PinOffsets) -> (r: RoutingResult)
    requires
        routable(design@, offsets@),
    ensures
        result_fits(design@, r),
        unrouted_covers(design@, offsets@, r),
        result_in_frame(design@, offsets@, r),
        unrouted_in_some_order(design@, r.unrouted@),
        result_found(design@, offsets@, r),
        routed_nets_joined(design@, offsets@, r),
{
    let no_priority: Vec<String> = Vec::new();
    let first = route_single_pass_with_via_cost(design, offsets, &no_priority, first_via_cost_at(0));
    route_after(design, offsets, first)
}

/// What a pass's result must hold for [`route_after`] to start from it.
pub open spec fn pass_result(d: DesignView, o: Seq<Seq<Seq<(i64, i64)>>>, r: RoutingResult) -> bool {
    &&& result_fits(d, r)
    &&& unrouted_covers(d, o, r)
    &&& result_in_frame(d, o, r)
    &&& unrouted_in_some_order(d, r.unrouted@)
    &&& result_found(d, o, r)
    &&& routed_nets_joined(d, o, r)
}

/// What [`route`] does after its first pass, from that pass's result
/// `first`: the further passes, keeping the best result. It never leaves
/// more nets unrouted than `first`, and gives `first` itself when that
/// leaves none.
pub fn route_after(design: &DsnDesign, offsets: &PinOffsets, first: RoutingResult) -> (r: RoutingResult)
    requires
        routable(design@, offsets@),
        pass_result(design@, offsets@, first),
    ensures
        pass_result(design@, offsets@, r),
        r.unrouted@.len() <= first.unrouted@.len(),
        first.unrouted@.len() == 0 ==> r == first,
{
    let no_priority: Vec<String> = Vec::new();
    let ghost f0 = first;
    let mut best = first;
    let mut k: usize = 1;
    while k < 5
        invariant
            routable(design@, offsets@),
            result_fits(design@, best),
            unrouted_covers(design@, offsets@, best),
            result_in_frame(design@, offsets@, best),
            unrouted_in_some_order(design@, best.unrouted@),
            result_found(design@, offsets@, best),
            routed_nets_joined(design@, offsets@, best),
            best.unrouted@.len() <= f0.unrouted@.len(),
            f0.unrouted@.len() == 0 ==> best == f0,
            no_priority@.len() == 0,
        decreases 5 - k,
    {
        if best.unrouted.len() == 0 {
            break;
        }
        let candidate = route_single_pass_with_via_cost(design, offsets, &no_priority, first_via_cost_at(k));
        if candidate.unrouted.len() < best.unrouted.len() {
            best = candidate;
        }
        k = k + 1;
    }
    let mut stalled_count: usize = 0;
    let mut pass: usize = 0;
    while pass < 20
        invariant_except_break
            stalled_count < 4,
        invariant
            routable(design@, offsets@),
            result_fits(design@, best),
            unrouted_covers(design@, offsets@, best),
            result_in_frame(design@, offsets@, best),
            unrouted_in_some_order(design@, best.unrouted@),
            result_found(design@, offsets@, best),
            routed_nets_joined(design@, offsets@, best),
            best.unrouted@.len() <= f0.unrouted@.len(),
            f0.unrouted@.len() == 0 ==> best == f0,
        decreases 20 - pass,
    {
        if best.unrouted.len() == 0 {
            break;
        }
        let mut priority_nets = copy_names(&best.unrouted);
        if stalled_count >= 1 {
            let neighbor_nets = find_spatial_neighbors(design, offsets, &best.unrouted, stalled_count);
            let mut j: usize = 0;
            while j < neighbor_nets.len()
                invariant
                    j <= neighbor_nets.len(),
                decreases neighbor_nets.len() - j,
            {
                if !contains_name(&priority_nets, neighbor_nets[j].as_str()) {
                    priority_nets.push(neighbor_nets[j].clone());
                }
                j = j + 1;
            }
        }
        let vc = via_cost_at(pass % 14);
        let candidate = route_single_pass_with_via_cost(design, offsets, &priority_nets, vc);
        if candidate.unrouted.len() < best.unrouted.len() {
            best = candidate;
            stalled_count = 0;
        } else if candidate.unrouted.len() == best.unrouted.len() && !names_equal(&candidate.unrouted, &best.unrouted) {
            best = candidate;
            stalled_count = stalled_count + 1;
        } else {
            stalled_count = stalled_count + 1;
        }
        if stalled_count >= 4 {
            break;
        }
        pass = pass + 1;
    }
    if best.unrouted.len() > 0 {
        let mut k: usize = 0;
        while k < 14
            invariant
                routable(design@, offsets@),
                result_fits(design@, best),
            unrouted_covers(design@, offsets@, best),
            result_in_frame(design@, offsets@, best),
            unrouted_in_some_order(design@, best.unrouted@),
            result_found(design@, offsets@, best),
            routed_nets_joined(design@, offsets@, best),
            best.unrouted@.len() <= f0.unrouted@.len(),
            f0.unrouted@.len() == 0 ==> best == f0,
            decreases 14 - k,
        {
            if best.unrouted.len() == 0 {
                break;
            }
            let vc = via_cost_at(k);
            let chain = build_conflict_chain(design, offsets, &best.unrouted, vc);
            if chain.len() > 0 {
                let candidate = route_single_pass_with_via_cost(design, offsets, &chain, vc);
                if candidate.unrouted.len() < best.unrouted.len() {
                    best = candidate;
                }
                if best.unrouted.len() == 0 {
                    break;
                }
            }
            k = k + 1;
        }
    }
    best
}


// ─── checking a design before routing ─────────────────────────────────────────

fn coord_in(v: i64) -> (r: bool)
    ensures
        r == coord_ok(v),
{
    -0x10_0000_0000 <= v && v <= 0x10_0000_0000
}

fn points_in(pts: &Vec<Point>) -> (r: bool)
    ensures
        r == points_in_range(pts@),
{
    let mut k: usize = 0;
    while k < pts.len()
        invariant
            k <= pts.len(),
            forall|j: int| 0 <= j < k ==> coord_ok((#[trigger] pts@[j]).x) && coord_ok(pts@[j].y),
        decreases pts.len() - k,
    {
        if !coord_in(pts[k].x) || !coord_in(pts[k].y) {
            return false;
        }
        k = k + 1;
    }
    true
}

fn shape_in(s: &PadShape) -> (r: bool)
    ensures
        r == shape_in_range(s@),
{
    match s {
        PadShape::Circle { diameter, .. } => coord_in(*diameter),
        PadShape::Rect { x1, y1, x2, y2, .. } => coord_in(*x1) && coord_in(*y1) && coord_in(*x2) && coord_in(*y2),
        PadShape::Oval { width, height, .. } => coord_in(*width) && coord_in(*height),
        PadShape::Polygon { points, .. } => points_in(points),
        PadShape::Path { width, .. } => coord_in(*width),
    }
}

/// Whether the offsets fit the design (see [`offsets_fit`]).
fn offsets_fit_design(design: &DsnDesign, offsets: &PinOffsets) -> (r: bool)
    ensures
        r == offsets_fit(design@, offsets@),
{
    let ghost d = design@;
    let ghost o = offsets@;
    if offsets.offsets.len() != design.components.len() {
        return false;
    }
    let mut c: usize = 0;
    while c < design.components.len()
        invariant
            d == design@,
            o == offsets@,
            o.len() == d.components.len(),
            c <= d.components.len(),
            forall|x: int| 0 <= x < c ==> #[trigger] o[x].len() == d.components[x].places.len(),
            forall|x: int, p: int|
                #![trigger o[x][p]]
                0 <= x < c && 0 <= p < o[x].len() ==> match image_of_component(d, x) {
                    Some(ii) => o[x][p].len() == d.images[ii].pins.len(),
                    None => true,
                },
            forall|x: int, p: int, k: int|
                #![trigger o[x][p][k]]
                0 <= x < c && 0 <= p < o[x].len() && 0 <= k < o[x][p].len() ==> coord_ok(o[x][p][k].0)
                    && coord_ok(o[x][p][k].1),
        decreases d.components.len() - c,
    {
        let comp = &design.components[c];
        let row = &offsets.offsets[c];
        proof {
            assert(d.components[c as int] == comp@);
            assert(o[c as int] == row@.map_values(|w: Vec<(i64, i64)>| w@));
        }
        if row.len() != comp.places.len() {
            proof {
                assert(o[c as int].len() != d.components[c as int].places.len());
            }
            return false;
        }
        let img = find_image(&design.images, comp.image_name.as_str());
        proof {
            assert(image_of_component(d, c as int) == image_index(images_view(design.images@), comp@.image_name));
        }
        let mut p: usize = 0;
        while p < row.len()
            invariant
                d == design@,
                o == offsets@,
                o.len() == d.components.len(),
                c < d.components.len(),
                d.components[c as int] == comp@,
                o[c as int] == row@.map_values(|w: Vec<(i64, i64)>| w@),
                o[c as int].len() == d.components[c as int].places.len(),
                match image_of_component(d, c as int) {
                    Some(ii) => img == Some(ii as usize) && 0 <= ii < d.images.len(),
                    None => img is None,
                },
                p <= row.len(),
                forall|q: int|
                    #![trigger o[c as int][q]]
                    0 <= q < p ==> match image_of_component(d, c as int) {
                        Some(ii) => o[c as int][q].len() == d.images[ii].pins.len(),
                        None => true,
                    },
                forall|q: int, k: int|
                    #![trigger o[c as int][q][k]]
                    0 <= q < p && 0 <= k < o[c as int][q].len() ==> coord_ok(o[c as int][q][k].0) && coord_ok(o[c as int][q][k].1),
            decreases row.len() - p,
        {
            let cell = &row[p];
            proof {
                assert(o[c as int][p as int] == cell@);
            }
            if let Some(ii) = img {
                proof {
                    assert(d.images.len() == design.images.len());
                    match image_of_component(d, c as int) {
                        Some(k) => {
                            assert(k as usize == ii);
                        },
                        None => {
                            assert(img is None);
                        },
                    }
                    assert(image_of_component(d, c as int) == Some(ii as int));
                    assert(d.images[ii as int] == design.images@[ii as int]@);
                }
                if cell.len() != design.images[ii].pins.len() {
                    proof {
                        assert(o[c as int][p as int].len() != d.images[ii as int].pins.len());
                        assert(!offsets_fit(d, o));
                    }
                    return false;
                }
            }
            let mut k: usize = 0;
            while k < cell.len()
                invariant
                    d == design@,
                    o == offsets@,
                    c < o.len(),
                    p < o[c as int].len(),
                    o[c as int][p as int] == cell@,
                    k <= cell.len(),
                    forall|j: int| 0 <= j < k ==> coord_ok((#[trigger] cell@[j]).0) && coord_ok(cell@[j].1),
                decreases cell.len() - k,
            {
                if !coord_in(cell[k].0) || !coord_in(cell[k].1) {
                    proof {
                        assert(o[c as int][p as int][k as int] == cell@[k as int]);
                        assert(!(coord_ok(o[c as int][p as int][k as int].0) && coord_ok(o[c as int][p as int][k as int].1)));
                    }
                    return false;
                }
                k = k + 1;
            }
            p = p + 1;
        }
        c = c + 1;
    }
    true
}

/// Whether every placement lies within the coordinate limit.
fn places_in(design: &DsnDesign) -> (r: bool)
    ensures
        r == places_in_range(design@),
{
    let ghost d = design@;
    let mut c: usize = 0;
    while c < design.components.len()
        invariant
            d == design@,
            c <= d.components.len(),
            forall|x: int, p: int|
                #![trigger d.components[x].places[p]]
                0 <= x < c && 0 <= p < d.components[x].places.len() ==> coord_ok(d.components[x].places[p].x)
                    && coord_ok(d.components[x].places[p].y),
        decreases d.components.len() - c,
    {
        let comp = &design.components[c];
        proof {
            assert(d.components[c as int] == comp@);
        }
        let mut p: usize = 0;
        while p < comp.places.len()
            invariant
                d == design@,
                c < d.components.len(),
                d.components[c as int] == comp@,
                p <= comp.places.len(),
                forall|q: int| 0 <= q < p ==> coord_ok((#[trigger] comp@.places[q]).x) && coord_ok(comp@.places[q].y),
            decreases comp.places.len() - p,
        {
            proof {
                assert(comp@.places[p as int] == comp.places@[p as int]@);
            }
            if !coord_in(comp.places[p].x) || !coord_in(comp.places[p].y) {
                return false;
            }
            p = p + 1;
        }
        c = c + 1;
    }
    true
}

/// Whether the router accepts the design with these offsets (see
/// [`routable`]): offsets for every pin, coordinates and sizes within the
/// coordinate limit, layer indices that name grid planes, and a board on
/// which the search for a grid size ends.
pub fn can_route(design: &DsnDesign, offsets: &PinOffsets) -> (r: bool)
    ensures
        r == routable(design@, offsets@),
{
    let ghost d = design@;
    if !offsets_fit_design(design, offsets) || !places_in(design) {
        return false;
    }
    let b = &design.boundary;
    if !coord_in(b.min_x) || !coord_in(b.min_y) || !coord_in(b.max_x) || !coord_in(b.max_y) {
        return false;
    }
    if !coord_in(design.rules.trace_width) || !coord_in(design.rules.clearance) {
        return false;
    }
    if design.layers.len() > 256 {
        return false;
    }
    let count = if design.layers.len() < 2 { 2 } else { design.layers.len() };
    let mut i: usize = 0;
    while i < design.layers.len()
        invariant
            d == design@,
            i <= d.layers.len(),
            count == layer_count(d),
            forall|x: int| 0 <= x < i ==> (#[trigger] d.layers[x]).index < layer_count(d),
        decreases d.layers.len() - i,
    {
        proof {
            assert(d.layers[i as int] == design.layers@[i as int]@);
        }
        if design.layers[i].index >= count {
            return false;
        }
        i = i + 1;
    }
    let mut k: usize = 0;
    while k < design.padstacks.len()
        invariant
            d == design@,
            k <= d.padstacks.len(),
            forall|x: int, j: int|
                0 <= x < k && 0 <= j < d.padstacks[x].shapes.len() ==> shape_in_range(
                    #[trigger] d.padstacks[x].shapes[j],
                ),
        decreases d.padstacks.len() - k,
    {
        let ps = &design.padstacks[k];
        proof {
            assert(d.padstacks[k as int] == ps@);
        }
        let mut j: usize = 0;
        while j < ps.shapes.len()
            invariant
                d == design@,
                k < d.padstacks.len(),
                d.padstacks[k as int] == ps@,
                j <= ps.shapes.len(),
                forall|t: int| 0 <= t < j ==> shape_in_range(#[trigger] ps@.shapes[t]),
            decreases ps.shapes.len() - j,
        {
            proof {
                assert(ps@.shapes[j as int] == ps.shapes@[j as int]@);
            }
            if !shape_in(&ps.shapes[j]) {
                return false;
            }
            j = j + 1;
        }
        k = k + 1;
    }
    let mut w: usize = 0;
    while w < design.wiring.len()
        invariant
            d == design@,
            w <= d.wiring.len(),
            forall|x: int| 0 <= x < w ==> wire_in_range(#[trigger] d.wiring[x]),
        decreases d.wiring.len() - w,
    {
        let wire = &design.wiring[w];
        proof {
            assert(d.wiring[w as int] == wire@);
        }
        if !coord_in(wire.width) || !points_in(&wire.points) {
            return false;
        }
        w = w + 1;
    }
    true
}


} // verus!
