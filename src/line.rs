use vstd::prelude::*;

verus! {

/// Absolute value over mathematical integers.
pub open spec fn abs(v: int) -> int {
    if v < 0 { -v } else { v }
}

/// Distance, in unit steps along both axes, from `p` to `(tx, ty)`.
pub open spec fn manhattan(p: (int, int), tx: int, ty: int) -> int {
    abs(tx - p.0) + abs(ty - p.1)
}

/// `v` lies between `a` and `b` (either order), both included.
pub open spec fn between(v: int, a: int, b: int) -> bool {
    (a <= v && v <= b) || (b <= v && v <= a)
}

/// Largest coordinate difference the rasterizer carries in its error term.
pub const SPAN_LIMIT: i64 = 0x1_0000_0000;

/// Integer error-accumulation rasterizer for the segment from a start pixel to
/// `(x1, y1)`. The state is the pixel that comes next, the target, the two
/// extents, the step signs, the accumulated error and whether the walk is over.
pub struct PixelLine {
    x0: i32,
    y0: i32,
    x1: i32,
    y1: i32,
    dx: i64,
    sx: i32,
    dy: i64,
    sy: i32,
    err: i64,
    ended: bool,
}

impl PixelLine {
    /// Steps left along x and y to the target.
    pub closed spec fn rx(self) -> int {
        abs(self.x1 - self.x0)
    }

    pub closed spec fn ry(self) -> int {
        abs(self.y1 - self.y0)
    }

    pub closed spec fn wf(self) -> bool {
        &&& 0 <= self.dx <= SPAN_LIMIT
        &&& -SPAN_LIMIT <= self.dy <= 0
        &&& (self.sx == 1 || self.sx == -1)
        &&& (self.sy == 1 || self.sy == -1)
        &&& (self.x0 < self.x1 ==> self.sx == 1)
        &&& (self.x0 > self.x1 ==> self.sx == -1)
        &&& (self.y0 < self.y1 ==> self.sy == 1)
        &&& (self.y0 > self.y1 ==> self.sy == -1)
        &&& self.rx() <= self.dx
        &&& self.ry() <= -self.dy
        &&& 2 * self.dy <= self.err <= 2 * self.dx
        &&& (!self.ended ==> self.err == self.dx * (1 - self.ry()) + self.dy * (1 - self.rx()))
        &&& (self.ended ==> self.rx() == 0 && self.ry() == 0)
    }

    /// Decreases with every pixel handed out.
    pub closed spec fn measure(self) -> nat {
        (self.rx() + self.ry() + if self.ended { 0int } else { 1int }) as nat
    }

    /// The x half of one step of the walk.
    pub closed spec fn step_x(self, e2: int) -> PixelLine {
        if e2 >= self.dy {
            if self.x0 == self.x1 {
                PixelLine { ended: true, ..self }
            } else {
                PixelLine { err: (self.err + self.dy) as i64, x0: (self.x0 + self.sx) as i32, ..self }
            }
        } else {
            self
        }
    }

    /// The y half of one step of the walk.
    pub closed spec fn step_y(self, e2: int) -> PixelLine {
        if e2 <= self.dx {
            if self.y0 == self.y1 {
                PixelLine { ended: true, ..self }
            } else {
                PixelLine { err: (self.err + self.dx) as i64, y0: (self.y0 + self.sy) as i32, ..self }
            }
        } else {
            self
        }
    }

    /// The state after the current pixel has been handed out.
    pub closed spec fn step(self) -> PixelLine {
        self.step_x(2 * self.err).step_y(2 * self.err)
    }

    /// The pixels that are still to come, in order.
    pub closed spec fn pixels(self) -> Seq<(int, int)>
        decreases self.measure(),
    {
        if !self.wf() || self.ended {
            Seq::empty()
        } else {
            proof {
                lemma_step(self);
            }
            seq![(self.x0 as int, self.y0 as int)] + self.step().pixels()
        }
    }

    pub closed spec fn view(self) -> Seq<(int, int)> {
        self.pixels()
    }

    /// Starts the walk from `(x0, y0)` to `(x1, y1)`.
    pub fn new(x0: i32, y0: i32, x1: i32, y1: i32) -> (r: Self)
        ensures
            r.wf(),
            r@ == line_pixels(x0, y0, x1, y1),
    {
        let ddx: i64 = x1 as i64 - x0 as i64;
        let ddy: i64 = y1 as i64 - y0 as i64;
        let dx: i64 = if ddx < 0 { -ddx } else { ddx };
        let dy: i64 = if ddy < 0 { ddy } else { -ddy };
        let sx: i32 = if x1 > x0 { 1 } else { -1 };
        let sy: i32 = if y1 > y0 { 1 } else { -1 };
        let err: i64 = dx + dy;
        let r = PixelLine { x0, y0, x1, y1, dx, sx, dy, sy, err, ended: false };
        proof {
            assert(r.err == r.dx * (1 - r.ry()) + r.dy * (1 - r.rx())) by (nonlinear_arith)
                requires
                    r.rx() == r.dx,
                    r.ry() == -r.dy,
                    r.err == r.dx + r.dy,
            ;
            assert(r == start_state(x0, y0, x1, y1));
        }
        r
    }

    /// Hands out the next pixel of the walk, or `None` once the target has
    /// been handed out.
    pub fn next(&mut self) -> (r: Option<(i32, i32)>)
        requires
            old(self).wf(),
        ensures
            final(self).wf(),
            old(self)@.len() == 0 ==> r is None && *final(self) == *old(self),
            old(self)@.len() > 0 ==> final(self)@ == old(self)@.drop_first() && match r {
                Some(p) => (p.0 as int, p.1 as int) == old(self)@[0],
                None => false,
            },
    {
        if self.ended {
            return None;
        }
        proof {
            lemma_step(*self);
        }
        let ghost start = *self;
        let res = (self.x0, self.y0);
        let e2: i64 = 2 * self.err;
        if e2 >= self.dy {
            if self.x0 == self.x1 {
                self.ended = true;
            } else {
                self.err = self.err + self.dy;
                self.x0 = self.x0 + self.sx;
            }
        }
        assert(*self == start.step_x(2 * start.err));
        if e2 <= self.dx {
            if self.y0 == self.y1 {
                self.ended = true;
            } else {
                self.err = self.err + self.dx;
                self.y0 = self.y0 + self.sy;
            }
        }
        assert(*self == start.step());
        assert(start@ == seq![(start.x0 as int, start.y0 as int)] + self@);
        assert(start@.drop_first() =~= self@);
        Some(res)
    }
}

/// The pixel walk from `(x0, y0)` to `(x1, y1)`.
pub closed spec fn line_pixels(x0: i32, y0: i32, x1: i32, y1: i32) -> Seq<(int, int)> {
    start_state(x0, y0, x1, y1).pixels()
}

/// The rasterizer's state before the first pixel.
pub closed spec fn start_state(x0: i32, y0: i32, x1: i32, y1: i32) -> PixelLine {
    let dx = abs(x1 - x0);
    let dy = -abs(y1 - y0);
    PixelLine {
        x0,
        y0,
        x1,
        y1,
        dx: dx as i64,
        sx: if x1 > x0 { 1i32 } else { -1i32 },
        dy: dy as i64,
        sy: if y1 > y0 { 1i32 } else { -1i32 },
        err: (dx + dy) as i64,
        ended: false,
    }
}

/// One step keeps the state well formed, moves each coordinate by at most one
/// towards the target, and ends only on the target without moving.
proof fn lemma_step(l: PixelLine)
    requires
        l.wf(),
        !l.ended,
    ensures
        l.step().wf(),
        l.step().measure() < l.measure(),
        l.step().x1 == l.x1 && l.step().y1 == l.y1,
        l.step().rx() <= l.rx() && l.step().ry() <= l.ry(),
        abs(l.step().x0 - l.x0) <= 1 && abs(l.step().y0 - l.y0) <= 1,
        l.step().rx() + l.step().ry() < l.rx() + l.ry() || l.step().ended,
        l.step().ended ==> l.rx() == 0 && l.ry() == 0 && l.step().x0 == l.x0 && l.step().y0 == l.y0,
{
    let e2 = 2 * l.err;
    let dx = l.dx as int;
    let dy = l.dy as int;
    let rx = l.rx();
    let ry = l.ry();
    let m = l.step_x(e2);
    let s = m.step_y(e2);
    // the error term pins the end of the walk to the target
    if e2 >= dy && rx == 0 {
        assert(ry == 0) by (nonlinear_arith)
            requires
                l.err == dx * (1 - ry) + dy * (1 - rx),
                rx == 0,
                e2 == 2 * l.err,
                e2 >= dy,
                0 <= ry <= -dy,
                dx >= 0,
        ;
    }
    if e2 <= dx && ry == 0 {
        assert(rx == 0) by (nonlinear_arith)
            requires
                l.err == dx * (1 - ry) + dy * (1 - rx),
                ry == 0,
                e2 == 2 * l.err,
                e2 <= dx,
                0 <= rx <= dx,
                dy <= 0,
        ;
    }
    if e2 >= dy && rx != 0 {
        assert(m.rx() == rx - 1);
        assert(m.err == dx * (1 - ry) + dy * (1 - m.rx())) by (nonlinear_arith)
            requires
                l.err == dx * (1 - ry) + dy * (1 - rx),
                m.err == l.err + dy,
                m.rx() == rx - 1,
        ;
    }
    assert(!m.ended ==> m.err == dx * (1 - m.ry()) + dy * (1 - m.rx()));
    if e2 <= dx && m.ry() != 0 {
        assert(s.ry() == m.ry() - 1);
        assert(s.err == dx * (1 - s.ry()) + dy * (1 - m.rx())) by (nonlinear_arith)
            requires
                m.err == dx * (1 - m.ry()) + dy * (1 - m.rx()),
                s.err == m.err + dx,
                s.ry() == m.ry() - 1,
        ;
    }
}

/// Along a major x axis every pixel but the last is followed by a step in x.
proof fn lemma_len_x(l: PixelLine)
    requires
        l.wf(),
        !l.ended,
        l.dx >= -l.dy,
        2 * l.err >= l.dy,
    ensures
        l@.len() == l.rx() + 1,
    decreases l.measure(),
{
    lemma_step(l);
    let s = l.step();
    if s.ended {
        assert(l@ == seq![(l.x0 as int, l.y0 as int)] + s@);
    } else {
        assert(l.x0 != l.x1);
        assert(s.rx() == l.rx() - 1);
        lemma_len_x(s);
        assert(l@ == seq![(l.x0 as int, l.y0 as int)] + s@);
    }
}

/// Along a major y axis every pixel but the last is followed by a step in y.
proof fn lemma_len_y(l: PixelLine)
    requires
        l.wf(),
        !l.ended,
        l.dx <= -l.dy,
        2 * l.err <= l.dx,
    ensures
        l@.len() == l.ry() + 1,
    decreases l.measure(),
{
    lemma_step(l);
    let s = l.step();
    if s.ended {
        assert(l@ == seq![(l.x0 as int, l.y0 as int)] + s@);
    } else {
        assert(l.y0 != l.y1);
        assert(s.ry() == l.ry() - 1);
        lemma_len_y(s);
        assert(l@ == seq![(l.x0 as int, l.y0 as int)] + s@);
    }
}

/// Sign of `v`: -1, 0 or 1.
pub open spec fn sgn(v: int) -> int {
    if v > 0 {
        1
    } else if v < 0 {
        -1
    } else {
        0
    }
}

/// The straight run of `k + 1` pixels from `(x, y)` in direction `(ux, uy)`.
pub open spec fn run_of(x: int, y: int, ux: int, uy: int, k: nat) -> Seq<(int, int)> {
    Seq::new(k + 1, |i: int| (x + i * ux, y + i * uy))
}

/// A horizontal, vertical or diagonal walk moves by the same unit step at
/// every pixel.
proof fn lemma_straight(l: PixelLine)
    requires
        l.wf(),
        !l.ended,
        l.dy == 0 || l.dx == 0 || (l.dx == -l.dy && l.rx() == l.ry()),
    ensures
        l@ == run_of(
            l.x0 as int,
            l.y0 as int,
            sgn(l.x1 - l.x0),
            sgn(l.y1 - l.y0),
            (if l.rx() >= l.ry() { l.rx() } else { l.ry() }) as nat,
        ),
    decreases l.measure(),
{
    lemma_step(l);
    let s = l.step();
    let ux = sgn(l.x1 - l.x0);
    let uy = sgn(l.y1 - l.y0);
    let k = (if l.rx() >= l.ry() { l.rx() } else { l.ry() }) as nat;
    let p = (l.x0 as int, l.y0 as int);
    assert(l@ == seq![p] + s@);
    let dx = l.dx as int;
    let dy = l.dy as int;
    if dy == 0 {
        assert(l.err == dx) by (nonlinear_arith)
            requires
                l.err == dx * (1 - l.ry()) + dy * (1 - l.rx()),
                dy == 0,
                l.ry() == 0,
        ;
    } else if dx == 0 {
        assert(l.err == dy) by (nonlinear_arith)
            requires
                l.err == dx * (1 - l.ry()) + dy * (1 - l.rx()),
                dx == 0,
                l.rx() == 0,
        ;
    } else {
        assert(l.err == 0) by (nonlinear_arith)
            requires
                l.err == dx * (1 - l.ry()) + dy * (1 - l.rx()),
                dx == -dy,
                l.rx() == l.ry(),
        ;
    }
    if s.ended {
        assert(k == 0);
        assert(l@ =~= run_of(l.x0 as int, l.y0 as int, ux, uy, k));
    } else {
        assert(s.x0 == l.x0 + ux && s.y0 == l.y0 + uy);
        lemma_straight(s);
        let k2 = (if s.rx() >= s.ry() { s.rx() } else { s.ry() }) as nat;
        assert(k2 + 1 == k);
        let r = run_of(l.x0 as int, l.y0 as int, ux, uy, k);
        assert(l@.len() == r.len());
        assert forall|i: int| 0 <= i < l@.len() implies l@[i] == r[i] by {
            assert(r[i] == (l.x0 + i * ux, l.y0 + i * uy));
            if i == 0 {
                assert(0 * ux == 0 && 0 * uy == 0) by (nonlinear_arith);
            } else {
                assert(l@[i] == s@[i - 1]);
                let sx = sgn(s.x1 - s.x0);
                let sy = sgn(s.y1 - s.y0);
                assert(s@[i - 1] == (s.x0 + (i - 1) * sx, s.y0 + (i - 1) * sy));
                if k2 > 0 {
                    assert(sx == ux && sy == uy);
                    assert((i - 1) * ux + ux == i * ux) by (nonlinear_arith);
                    assert((i - 1) * uy + uy == i * uy) by (nonlinear_arith);
                } else {
                    assert(i == 1);
                    assert((i - 1) * sx == 0 && (i - 1) * sy == 0) by (nonlinear_arith)
                        requires
                            i == 1,
                    ;
                    assert(i * ux == ux && i * uy == uy) by (nonlinear_arith)
                        requires
                            i == 1,
                    ;
                }
            }
        }
        assert(l@ =~= r);
    }
}

/// What every walk hands out: it starts at the current pixel, ends on the
/// target, never leaves the box spanned by the two, moves by at most one pixel
/// per axis at a time, and gets strictly closer to the target at every pixel,
/// so that no pixel comes twice.
proof fn lemma_pixels(l: PixelLine)
    requires
        l.wf(),
        !l.ended,
    ensures
        l@.len() >= 1,
        l@.len() <= l.rx() + l.ry() + 1,
        l@[0] == (l.x0 as int, l.y0 as int),
        l@.last() == (l.x1 as int, l.y1 as int),
        forall|i: int|
            0 <= i < l@.len() ==> between(#[trigger] l@[i].0, l.x0 as int, l.x1 as int)
                && between(l@[i].1, l.y0 as int, l.y1 as int),
        forall|i: int|
            0 <= i < l@.len() - 1 ==> abs(#[trigger] l@[i + 1].0 - l@[i].0) <= 1
                && abs(l@[i + 1].1 - l@[i].1) <= 1,
        forall|i: int, j: int|
            0 <= i < j < l@.len() ==> manhattan(#[trigger] l@[i], l.x1 as int, l.y1 as int)
                > manhattan(#[trigger] l@[j], l.x1 as int, l.y1 as int),
    decreases l.measure(),
{
    lemma_step(l);
    let s = l.step();
    let p = (l.x0 as int, l.y0 as int);
    assert(l@ == seq![p] + s@);
    if s.ended {
        assert(s@ == Seq::<(int, int)>::empty());
        assert(l@ =~= seq![p]);
    } else {
        lemma_pixels(s);
        assert(manhattan(p, l.x1 as int, l.y1 as int) == l.rx() + l.ry());
        assert forall|i: int|
            0 <= i < l@.len() implies between(#[trigger] l@[i].0, l.x0 as int, l.x1 as int)
                && between(l@[i].1, l.y0 as int, l.y1 as int) by {
            if i > 0 {
                assert(l@[i] == s@[i - 1]);
            }
        }
        assert forall|i: int|
            0 <= i < l@.len() - 1 implies abs(#[trigger] l@[i + 1].0 - l@[i].0) <= 1
                && abs(l@[i + 1].1 - l@[i].1) <= 1 by {
            if i > 0 {
                assert(l@[i] == s@[i - 1]);
                assert(l@[i + 1] == s@[i]);
                let k = i - 1;
                assert(abs(s@[k + 1].0 - s@[k].0) <= 1 && abs(s@[k + 1].1 - s@[k].1) <= 1);
            } else {
                assert(l@[0] == p);
                assert(l@[1] == s@[0]);
                assert(s@[0] == (s.x0 as int, s.y0 as int));
            }
        }
        assert forall|i: int, j: int|
            0 <= i < j < l@.len() implies manhattan(#[trigger] l@[i], l.x1 as int, l.y1 as int)
                > manhattan(#[trigger] l@[j], l.x1 as int, l.y1 as int) by {
            assert(l@[j] == s@[j - 1]);
            if i > 0 {
                assert(l@[i] == s@[i - 1]);
            } else {
                assert(s@[0] == (s.x0 as int, s.y0 as int));
                if j - 1 > 0 {
                    assert(manhattan(s@[0], l.x1 as int, l.y1 as int) > manhattan(
                        s@[j - 1],
                        l.x1 as int,
                        l.y1 as int,
                    ));
                }
            }
        }
    }
}

} // verus!

verus! {

/// The walk from `(x0, y0)` to `(x1, y1)` starts on the first point, ends on
/// the second, stays in the box they span, moves at most one pixel per axis at
/// a time, holds no pixel twice, and has one pixel more than the larger of
/// `|x1 - x0|` and `|y1 - y0|`: one pixel per unit step along the longer axis.
/// A single point gives exactly that point.
pub proof fn lemma_line(x0: i32, y0: i32, x1: i32, y1: i32)
    ensures
        ({
            let p = line_pixels(x0, y0, x1, y1);
            &&& p.len() == if abs(x1 - x0) >= abs(y1 - y0) {
                abs(x1 - x0) + 1
            } else {
                abs(y1 - y0) + 1
            }
            &&& p[0] == (x0 as int, y0 as int)
            &&& p.last() == (x1 as int, y1 as int)
            &&& forall|i: int|
                0 <= i < p.len() ==> between(#[trigger] p[i].0, x0 as int, x1 as int)
                    && between(p[i].1, y0 as int, y1 as int)
            &&& forall|i: int|
                0 <= i < p.len() - 1 ==> abs(#[trigger] p[i + 1].0 - p[i].0) <= 1
                    && abs(p[i + 1].1 - p[i].1) <= 1
            &&& forall|i: int, j: int| 0 <= i < j < p.len() ==> #[trigger] p[i] != #[trigger] p[j]
        }),
        x0 == x1 && y0 == y1 ==> line_pixels(x0, y0, x1, y1) == seq![(x0 as int, y0 as int)],
{
    let l = start_state(x0, y0, x1, y1);
    assert(l.err == l.dx * (1 - l.ry()) + l.dy * (1 - l.rx())) by (nonlinear_arith)
        requires
            l.rx() == l.dx,
            l.ry() == -l.dy,
            l.err == l.dx + l.dy,
    ;
    lemma_pixels(l);
    if l.dx >= -l.dy {
        lemma_len_x(l);
    } else {
        lemma_len_y(l);
    }
    let p = l@;
    assert forall|i: int, j: int| 0 <= i < j < p.len() implies #[trigger] p[i] != #[trigger] p[j] by {
        assert(manhattan(p[i], x1 as int, y1 as int) > manhattan(p[j], x1 as int, y1 as int));
    }
    if x0 == x1 && y0 == y1 {
        assert(p.len() == 1);
        assert(p =~= seq![(x0 as int, y0 as int)]);
    }
}

} // verus!

verus! {

/// For a horizontal, vertical or diagonal segment, the walk from the second
/// point back to the first visits the same pixels as the walk out, in reverse
/// order.
pub proof fn lemma_line_reversed(x0: i32, y0: i32, x1: i32, y1: i32)
    requires
        x0 == x1 || y0 == y1 || abs(x1 - x0) == abs(y1 - y0),
    ensures
        line_pixels(x1, y1, x0, y0) == line_pixels(x0, y0, x1, y1).reverse(),
{
    let l = start_state(x0, y0, x1, y1);
    let m = start_state(x1, y1, x0, y0);
    assert(l.err == l.dx * (1 - l.ry()) + l.dy * (1 - l.rx())) by (nonlinear_arith)
        requires
            l.rx() == l.dx,
            l.ry() == -l.dy,
            l.err == l.dx + l.dy,
    ;
    assert(m.err == m.dx * (1 - m.ry()) + m.dy * (1 - m.rx())) by (nonlinear_arith)
        requires
            m.rx() == m.dx,
            m.ry() == -m.dy,
            m.err == m.dx + m.dy,
    ;
    lemma_straight(l);
    lemma_straight(m);
    let k = (if l.rx() >= l.ry() { l.rx() } else { l.ry() }) as nat;
    let ux = sgn(x1 - x0);
    let uy = sgn(y1 - y0);
    let f = l@;
    let b = m@;
    assert(x0 + k * ux == x1 && y0 + k * uy == y1) by (nonlinear_arith)
        requires
            x0 == x1 || y0 == y1 || abs(x1 - x0) == abs(y1 - y0),
            k == (if abs(x1 - x0) >= abs(y1 - y0) { abs(x1 - x0) } else { abs(y1 - y0) }),
            ux == sgn(x1 - x0),
            uy == sgn(y1 - y0),
    ;
    assert forall|i: int| 0 <= i < b.len() implies b[i] == f.reverse()[i] by {
        assert(f.reverse()[i] == f[f.len() - 1 - i]);
        assert((k - i) * ux == k * ux - i * ux) by (nonlinear_arith);
        assert((k - i) * uy == k * uy - i * uy) by (nonlinear_arith);
        assert(i * sgn(x0 - x1) == -(i * ux)) by (nonlinear_arith)
            requires
                ux == sgn(x1 - x0),
        ;
        assert(i * sgn(y0 - y1) == -(i * uy)) by (nonlinear_arith)
            requires
                uy == sgn(y1 - y0),
        ;
    }
    assert(b =~= f.reverse());
}

} // verus!
