//! The pixel board and its two-phase draw/erase tick.
use crate::shapes::{
    cube_fits, cube_spec, line_spec, points_for_cube, points_for_line, points_view, Point,
};
use vstd::prelude::*;

verus! {

/// A two-valued pixel.
#[derive(Clone, Copy, Debug, PartialEq, Eq, Structural)]
pub enum Pixel {
    Black,
    White,
}

impl Pixel {
    /// The other value.
    pub open spec fn flipped(self) -> Pixel {
        match self {
            Pixel::Black => Pixel::White,
            Pixel::White => Pixel::Black,
        }
    }

    /// The pixel that a fair coin draw selects: heads gives Black.
    pub open spec fn from_coin(heads: bool) -> Pixel {
        if heads {
            Pixel::Black
        } else {
            Pixel::White
        }
    }

    /// Flips the pixel in place.
    pub fn toggle(&mut self)
        ensures
            *final(self) == old(self).flipped(),
    {
        *self = match *self {
            Pixel::Black => Pixel::White,
            Pixel::White => Pixel::Black,
        }
    }

    /// The pixel for one fair coin draw.
    pub fn random(heads: bool) -> (p: Pixel)
        ensures
            p == Pixel::from_coin(heads),
    {
        if heads {
            Pixel::Black
        } else {
            Pixel::White
        }
    }
}

/// Whether `p` lies on a board of `w` columns and `h` rows.
pub open spec fn in_bounds(p: Point, w: nat, h: nat) -> bool {
    0 <= p.0 < w && 0 <= p.1 < h
}

/// The buffer position of the cell at `p` on a board of `w` columns.
pub open spec fn cell_index(p: Point, w: nat) -> int {
    p.1 * w + p.0
}

/// The cells after flipping the one at `p`.
pub open spec fn flip_at(cells: Seq<Pixel>, p: Point, w: nat) -> Seq<Pixel> {
    cells.update(cell_index(p, w), cells[cell_index(p, w)].flipped())
}

/// The cells after flipping the one at each point of `pts`, in order.
pub open spec fn toggle_points(cells: Seq<Pixel>, pts: Seq<Point>, w: nat) -> Seq<Pixel>
    decreases pts.len(),
{
    if pts.len() == 0 {
        cells
    } else {
        flip_at(toggle_points(cells, pts.drop_last(), w), pts.last(), w)
    }
}

/// The points of `pts` that lie on the board, in order.
pub open spec fn visible(pts: Seq<Point>, w: nat, h: nat) -> Seq<Point>
    decreases pts.len(),
{
    if pts.len() == 0 {
        Seq::empty()
    } else if in_bounds(pts.last(), w, h) {
        visible(pts.drop_last(), w, h).push(pts.last())
    } else {
        visible(pts.drop_last(), w, h)
    }
}

pub open spec fn all_in_bounds(pts: Seq<Point>, w: nat, h: nat) -> bool {
    forall|k: int| 0 <= k < pts.len() ==> in_bounds(#[trigger] pts[k], w, h)
}

/// What a board holds: its size, its cells in row-major order, the points waiting
/// for the next tick, and the points that tick lit last.
pub struct BoardState {
    pub width: nat,
    pub height: nat,
    pub cells: Seq<Pixel>,
    pub pending: Seq<Point>,
    pub cleanup: Seq<Point>,
}

/// A width by height board of pixels with its animation queues.
pub struct PovBoard {
    width: u32,
    height: u32,
    pixels: Vec<Pixel>,
    queue: Vec<Point>,
    cleanups: Vec<Point>,
}

impl View for PovBoard {
    type V = BoardState;

    closed spec fn view(&self) -> BoardState {
        BoardState {
            width: self.width as nat,
            height: self.height as nat,
            cells: self.pixels@,
            pending: self.queue@,
            cleanup: self.cleanups@,
        }
    }
}

/// On a board of `w` columns and `h` rows, the cell at `(x, y)` sits at buffer position
/// `y * w + x`, which lies within the buffer and gives back `x` and `y`.
pub proof fn lemma_cell_index(p: Point, w: nat, h: nat)
    requires
        in_bounds(p, w, h),
    ensures
        0 <= cell_index(p, w) < w * h,
        cell_index(p, w) % (w as int) == p.0,
        cell_index(p, w) / (w as int) == p.1,
{
    let x = p.0 as int;
    let y = p.1 as int;
    assert(0 <= y * w + x < w * h) by (nonlinear_arith)
        requires
            0 <= x < w,
            0 <= y < h,
    ;
    vstd::arithmetic::div_mod::lemma_fundamental_div_mod_converse(
        y * w + x,
        w as int,
        y,
        x,
    );
}

impl PovBoard {
    /// The cells have the board's size, and every point awaiting erasure is on it.
    pub open spec fn wf(&self) -> bool {
        &&& self@.cells.len() == self@.width * self@.height
        &&& all_in_bounds(self@.cleanup, self@.width, self@.height)
    }

    /// A board of `width` by `height` cells, the cell at buffer position `k` set by
    /// the coin draw `coins[k]`, with nothing queued.
    pub fn new(width: u32, height: u32, coins: &Vec<bool>) -> (b: PovBoard)
        requires
            coins@.len() == width * height,
        ensures
            b.wf(),
            b@.width == width,
            b@.height == height,
            b@.cells == coins@.map_values(|c: bool| Pixel::from_coin(c)),
            b@.pending == Seq::<Point>::empty(),
            b@.cleanup == Seq::<Point>::empty(),
    {
        let mut b = PovBoard {
            width,
            height,
            pixels: Vec::new(),
            queue: Vec::new(),
            cleanups: Vec::new(),
        };
        b.fill_from_coins(coins);
        b
    }

    fn fill_from_coins(&mut self, coins: &Vec<bool>)
        ensures
            final(self)@ == (BoardState {
                cells: coins@.map_values(|c: bool| Pixel::from_coin(c)),
                ..old(self)@
            }),
    {
        let mut pixels: Vec<Pixel> = Vec::new();
        let mut k: usize = 0;
        while k < coins.len()
            invariant
                0 <= k <= coins.len(),
                pixels@ == coins@.take(k as int).map_values(|c: bool| Pixel::from_coin(c)),
            decreases coins.len() - k,
        {
            pixels.push(Pixel::random(coins[k]));
            k = k + 1;
            proof {
                assert(pixels@ =~= coins@.take(k as int).map_values(|c: bool| Pixel::from_coin(c)));
            }
        }
        proof {
            assert(coins@.take(k as int) =~= coins@);
        }
        self.pixels = pixels;
    }

    /// Redraws every cell: the cell at buffer position `k` from the coin draw `coins[k]`.
    pub fn randomize(&mut self, coins: &Vec<bool>)
        requires
            old(self).wf(),
            coins@.len() == old(self)@.cells.len(),
        ensures
            final(self).wf(),
            final(self)@ == (BoardState {
                cells: coins@.map_values(|c: bool| Pixel::from_coin(c)),
                ..old(self)@
            }),
    {
        self.fill_from_coins(coins);
    }

    /// Sets every cell to Black.
    pub fn black(&mut self)
        requires
            old(self).wf(),
        ensures
            final(self).wf(),
            final(self)@ == (BoardState {
                cells: Seq::new(old(self)@.cells.len(), |k: int| Pixel::Black),
                ..old(self)@
            }),
    {
        let mut k: usize = 0;
        while k < self.pixels.len()
            invariant
                0 <= k <= self.pixels.len(),
                self.pixels@.len() == old(self).pixels@.len(),
                forall|m: int| 0 <= m < k ==> self.pixels@[m] == Pixel::Black,
                self.width == old(self).width,
                self.height == old(self).height,
                self.queue == old(self).queue,
                self.cleanups == old(self).cleanups,
            decreases self.pixels.len() - k,
        {
            self.pixels.set(k, Pixel::Black);
            k = k + 1;
        }
        proof {
            assert(self.pixels@ =~= Seq::new(old(self)@.cells.len(), |k: int| Pixel::Black));
        }
    }

    /// The cells in row-major order: the cell at `(x, y)` is at position `y * width + x`.
    pub fn pixels(&self) -> (r: &Vec<Pixel>)
        ensures
            r@ == self@.cells,
    {
        &self.pixels
    }

    /// The points waiting for the next tick, oldest first.
    pub fn pending_points(&self) -> (r: &Vec<Point>)
        ensures
            r@ == self@.pending,
    {
        &self.queue
    }

    /// The points that the next tick erases.
    pub fn cleanup_points(&self) -> (r: &Vec<Point>)
        ensures
            r@ == self@.cleanup,
    {
        &self.cleanups
    }

    /// Flips the cell at `p`, which must lie on the board.
    fn toggle_at(&mut self, p: Point)
        requires
            old(self)@.cells.len() == old(self)@.width * old(self)@.height,
            in_bounds(p, old(self)@.width, old(self)@.height),
        ensures
            final(self)@ == (BoardState {
                cells: flip_at(old(self)@.cells, p, old(self)@.width),
                ..old(self)@
            }),
            final(self)@.cells.len() == old(self)@.cells.len(),
    {
        proof {
            lemma_cell_index(p, self@.width, self@.height);
        }
        let n = self.pixels.len();
        assert(p.1 as int * self.width as int + p.0 as int == cell_index(p, self@.width));
        let idx: usize = p.1 as usize * self.width as usize + p.0 as usize;
        let mut px = self.pixels[idx];
        px.toggle();
        self.pixels.set(idx, px);
    }

    /// One animation step: erases what the previous tick lit, then lights every
    /// pending point that lies on the board, in order, and remembers those points
    /// for erasure; points off the board are dropped.
    pub fn tick(&mut self)
        requires
            old(self).wf(),
        ensures
            final(self).wf(),
            final(self)@.width == old(self)@.width,
            final(self)@.height == old(self)@.height,
            final(self)@.pending == Seq::<Point>::empty(),
            final(self)@.cleanup == visible(old(self)@.pending, old(self)@.width, old(self)@.height),
            final(self)@.cells == toggle_points(
                toggle_points(old(self)@.cells, old(self)@.cleanup, old(self)@.width),
                final(self)@.cleanup,
                old(self)@.width,
            ),
    {
        let ghost w = self@.width;
        let ghost h = self@.height;
        let ghost erased = toggle_points(old(self)@.cells, old(self)@.cleanup, w);
        let mut k: usize = 0;
        while k < self.cleanups.len()
            invariant
                0 <= k <= self.cleanups.len(),
                self@.width == w,
                self@.height == h,
                self@.cells.len() == w * h,
                self@.cleanup == old(self)@.cleanup,
                self@.pending == old(self)@.pending,
                all_in_bounds(self@.cleanup, w, h),
                self@.cells == toggle_points(old(self)@.cells, self@.cleanup.take(k as int), w),
            decreases self.cleanups.len() - k,
        {
            let p = self.cleanups[k];
            self.toggle_at(p);
            proof {
                assert(self@.cleanup.take(k + 1).drop_last() =~= self@.cleanup.take(k as int));
            }
            k = k + 1;
        }
        proof {
            assert(self@.cleanup.take(k as int) =~= self@.cleanup);
        }
        self.cleanups.clear();
        let mut k: usize = 0;
        while k < self.queue.len()
            invariant
                0 <= k <= self.queue.len(),
                self@.width == w,
                self@.height == h,
                self@.cells.len() == w * h,
                self@.pending == old(self)@.pending,
                self@.cleanup == visible(self@.pending.take(k as int), w, h),
                all_in_bounds(self@.cleanup, w, h),
                self@.cells == toggle_points(erased, self@.cleanup, w),
            decreases self.queue.len() - k,
        {
            let p = self.queue[k];
            let ghost before = self@.cleanup;
            proof {
                assert(self@.pending.take(k + 1).drop_last() =~= self@.pending.take(k as int));
            }
            if p.0 >= 0 && p.1 >= 0 && (p.0 as i64) < (self.width as i64) && (p.1 as i64)
                < (self.height as i64) {
                self.cleanups.push(p);
                self.toggle_at(p);
                proof {
                    assert(self@.cleanup.drop_last() =~= before);
                }
            }
            k = k + 1;
        }
        proof {
            assert(self@.pending.take(k as int) =~= self@.pending);
        }
        self.queue.clear();
    }

    /// Queues `points` for the next tick, in order.
    pub fn draw_points(&mut self, points: Vec<Point>)
        requires
            old(self).wf(),
        ensures
            final(self).wf(),
            final(self)@ == (BoardState { pending: old(self)@.pending + points@, ..old(self)@ }),
    {
        let mut points = points;
        self.queue.append(&mut points);
    }

    /// Queues the line from `(x1, y1)` to `(x2, y2)`, starting at `(x1, y1)`.
    pub fn draw_line(&mut self, x1: i32, y1: i32, x2: i32, y2: i32)
        requires
            old(self).wf(),
        ensures
            final(self).wf(),
            final(self)@.width == old(self)@.width,
            final(self)@.height == old(self)@.height,
            final(self)@.cells == old(self)@.cells,
            final(self)@.cleanup == old(self)@.cleanup,
            points_view(final(self)@.pending) == points_view(old(self)@.pending) + line_spec(
                x1 as int,
                y1 as int,
                x2 as int,
                y2 as int,
            ),
    {
        let points = points_for_line(x1, y1, x2, y2);
        let ghost pts = points@;
        self.draw_points(points);
        proof {
            assert(points_view(self@.pending) =~= points_view(old(self)@.pending) + points_view(pts));
        }
    }

    /// Queues the line from `(x, y1)` to `(x, y2)`.
    pub fn draw_vertical_line(&mut self, x: i32, y1: i32, y2: i32)
        requires
            old(self).wf(),
        ensures
            final(self).wf(),
            final(self)@.width == old(self)@.width,
            final(self)@.height == old(self)@.height,
            final(self)@.cells == old(self)@.cells,
            final(self)@.cleanup == old(self)@.cleanup,
            points_view(final(self)@.pending) == points_view(old(self)@.pending) + line_spec(
                x as int,
                y1 as int,
                x as int,
                y2 as int,
            ),
    {
        self.draw_line(x, y1, x, y2);
    }

    /// Queues the line from `(x1, y)` to `(x2, y)`.
    pub fn draw_horizontal_line(&mut self, y: i32, x1: i32, x2: i32)
        requires
            old(self).wf(),
        ensures
            final(self).wf(),
            final(self)@.width == old(self)@.width,
            final(self)@.height == old(self)@.height,
            final(self)@.cells == old(self)@.cells,
            final(self)@.cleanup == old(self)@.cleanup,
            points_view(final(self)@.pending) == points_view(old(self)@.pending) + line_spec(
                x1 as int,
                y as int,
                x2 as int,
                y as int,
            ),
    {
        self.draw_line(x1, y, x2, y);
    }

    /// Queues the unrotated wireframe of a cube of side `r` drawn near `(x1, y1)`.
    pub fn draw_cube(&mut self, x1: i32, y1: i32, r: i32)
        requires
            old(self).wf(),
            cube_fits(x1 as int, y1 as int, r as int),
        ensures
            final(self).wf(),
            final(self)@.width == old(self)@.width,
            final(self)@.height == old(self)@.height,
            final(self)@.cells == old(self)@.cells,
            final(self)@.cleanup == old(self)@.cleanup,
            points_view(final(self)@.pending) == points_view(old(self)@.pending) + cube_spec(
                x1 as int,
                y1 as int,
                r as int,
            ),
    {
        let points = points_for_cube(x1, y1, r);
        let ghost pts = points@;
        self.draw_points(points);
        proof {
            assert(points_view(self@.pending) =~= points_view(old(self)@.pending) + points_view(pts));
        }
    }
}

/// How many points of `pts` fall on buffer position `i`.
pub open spec fn hits(pts: Seq<Point>, i: int, w: nat) -> nat
    decreases pts.len(),
{
    if pts.len() == 0 {
        0
    } else {
        hits(pts.drop_last(), i, w) + if cell_index(pts.last(), w) == i {
            1nat
        } else {
            0nat
        }
    }
}

/// Toggling a run of points on the board flips exactly the cells hit an odd number
/// of times.
pub proof fn lemma_toggle_points_parity(cells: Seq<Pixel>, pts: Seq<Point>, w: nat, h: nat)
    requires
        cells.len() == w * h,
        all_in_bounds(pts, w, h),
    ensures
        toggle_points(cells, pts, w).len() == cells.len(),
        forall|i: int|
            0 <= i < cells.len() ==> #[trigger] toggle_points(cells, pts, w)[i] == if hits(pts, i, w)
                % 2 == 1 {
                cells[i].flipped()
            } else {
                cells[i]
            },
    decreases pts.len(),
{
    if pts.len() > 0 {
        let rest = pts.drop_last();
        assert forall|k: int| 0 <= k < rest.len() implies in_bounds(#[trigger] rest[k], w, h) by {
            assert(rest[k] == pts[k]);
        }
        lemma_toggle_points_parity(cells, rest, w, h);
        assert(in_bounds(pts[pts.len() - 1], w, h));
        lemma_cell_index(pts.last(), w, h);
    }
}

/// The points kept by `visible` all lie on the board.
pub proof fn lemma_visible_in_bounds(pts: Seq<Point>, w: nat, h: nat)
    ensures
        all_in_bounds(visible(pts, w, h), w, h),
    decreases pts.len(),
{
    if pts.len() > 0 {
        lemma_visible_in_bounds(pts.drop_last(), w, h);
    }
}

/// Lighting a frame and erasing it again restores the board: starting with nothing
/// awaiting erasure, a tick that draws the pending points followed by a tick with
/// nothing pending leaves every cell as it was and nothing to erase.
pub proof fn lemma_flash_restores(cells: Seq<Pixel>, pending: Seq<Point>, w: nat, h: nat)
    requires
        cells.len() == w * h,
    ensures
        ({
            let lit = visible(pending, w, h);
            let first = toggle_points(toggle_points(cells, Seq::empty(), w), lit, w);
            toggle_points(toggle_points(first, lit, w), visible(Seq::empty(), w, h), w) == cells
        }),
        visible(Seq::<Point>::empty(), w, h) == Seq::<Point>::empty(),
{
    let lit = visible(pending, w, h);
    lemma_visible_in_bounds(pending, w, h);
    assert(toggle_points(cells, Seq::empty(), w) == cells);
    let first = toggle_points(cells, lit, w);
    lemma_toggle_points_parity(cells, lit, w, h);
    lemma_toggle_points_parity(first, lit, w, h);
    let second = toggle_points(first, lit, w);
    assert(toggle_points(second, visible(Seq::empty(), w, h), w) == second);
    assert forall|i: int| 0 <= i < cells.len() implies second[i] == cells[i] by {
        assert(first[i] == (if hits(lit, i, w) % 2 == 1 {
            cells[i].flipped()
        } else {
            cells[i]
        }));
    }
    assert(second =~= cells);
}

/// A tick on a board with nothing awaiting erasure, whose pending points all lie off
/// the board, changes no cell and leaves nothing to erase.
pub proof fn lemma_offboard_tick(cells: Seq<Pixel>, pending: Seq<Point>, w: nat, h: nat)
    requires
        forall|k: int| 0 <= k < pending.len() ==> !in_bounds(#[trigger] pending[k], w, h),
    ensures
        visible(pending, w, h) == Seq::<Point>::empty(),
        toggle_points(toggle_points(cells, Seq::empty(), w), visible(pending, w, h), w) == cells,
    decreases pending.len(),
{
    if pending.len() > 0 {
        let rest = pending.drop_last();
        assert forall|k: int| 0 <= k < rest.len() implies !in_bounds(#[trigger] rest[k], w, h) by {
            assert(rest[k] == pending[k]);
        }
        lemma_offboard_tick(cells, rest, w, h);
        assert(!in_bounds(pending[pending.len() - 1], w, h));
    }
}

} // verus!
