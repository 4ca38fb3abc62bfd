use vstd::prelude::*;
use crate::color::{Color, bgra_word};
use crate::utils::{pixel_slot, lemma_slot_coordinates, lemma_coordinates_of_slot};

verus! {

pub open spec fn abs_diff(a: int, b: int) -> int {
    if a <= b {
        b - a
    } else {
        a - b
    }
}

/// The value `k` units from `a` in the direction of `b`.
pub open spec fn toward(a: int, b: int, k: int) -> int {
    if a <= b {
        a + k
    } else {
        a - k
    }
}

/// Offset along the minor axis after `k` unit steps along the major axis: the
/// ideal offset `k * minor / major` rounded to the nearest integer, halves up.
pub open spec fn minor_offset(k: int, major: int, minor: int) -> int {
    if major == 0 {
        0
    } else {
        (2 * k * minor + major) / (2 * major)
    }
}

/// Number of pixels on the line from `(x0, y0)` to `(x1, y1)`.
pub open spec fn line_len(x0: int, y0: int, x1: int, y1: int) -> int {
    let dx = abs_diff(x0, x1);
    let dy = abs_diff(y0, y1);
    if dx >= dy {
        dx + 1
    } else {
        dy + 1
    }
}

/// The `k`-th pixel of the line from `(x0, y0)` to `(x1, y1)`: one unit step
/// along the longer axis per pixel, the shorter axis following the ideal line
/// to the nearest pixel.
pub open spec fn line_point(x0: int, y0: int, x1: int, y1: int, k: int) -> (int, int) {
    let dx = abs_diff(x0, x1);
    let dy = abs_diff(y0, y1);
    if dx >= dy {
        (toward(x0, x1, k), toward(y0, y1, minor_offset(k, dx, dy)))
    } else {
        (toward(x0, x1, minor_offset(k, dy, dx)), toward(y0, y1, k))
    }
}

/// Whether pixel `(x, y)` is among the first `n` pixels of the line.
pub open spec fn line_hits_before(x0: int, y0: int, x1: int, y1: int, n: int, x: int, y: int) -> bool {
    exists|k: int| 0 <= k < n && #[trigger] line_point(x0, y0, x1, y1, k) == (x, y)
}

proof fn lemma_offset_step(k: int, major: int, minor: int)
    requires
        0 <= k,
        0 <= minor <= major,
        0 < major,
    ensures
        minor_offset(k, major, minor) <= minor_offset(k + 1, major, minor) <= minor_offset(k, major, minor) + 1,
        0 <= minor_offset(k, major, minor),
{
    let a = 2 * k * minor + major;
    let d = 2 * major;
    assert(2 * (k + 1) * minor + major == a + 2 * minor) by (nonlinear_arith)
        requires
            a == 2 * k * minor + major,
    ;
    assert(a >= 0) by (nonlinear_arith)
        requires
            0 <= k,
            0 <= minor,
            0 < major,
            a == 2 * k * minor + major,
    ;
    vstd::arithmetic::div_mod::lemma_fundamental_div_mod(a, d);
    vstd::arithmetic::div_mod::lemma_mod_bound(a, d);
    vstd::arithmetic::div_mod::lemma_div_pos_is_pos(a, d);
    let q = a / d;
    let r = a % d;
    if r + 2 * minor < d {
        vstd::arithmetic::div_mod::lemma_fundamental_div_mod_converse(a + 2 * minor, d, q, r + 2 * minor);
    } else {
        assert(a + 2 * minor == (q + 1) * d + (r + 2 * minor - d)) by (nonlinear_arith)
            requires
                a == d * q + r,
        ;
        vstd::arithmetic::div_mod::lemma_fundamental_div_mod_converse(a + 2 * minor, d, q + 1, r + 2 * minor - d);
    }
}

proof fn lemma_offset_range(k: int, major: int, minor: int)
    requires
        0 <= k <= major,
        0 <= minor <= major,
    ensures
        0 <= minor_offset(k, major, minor) <= minor,
        minor_offset(0, major, minor) == 0,
        minor_offset(major, major, minor) == minor,
    decreases k,
{
    if major > 0 {
        vstd::arithmetic::div_mod::lemma_fundamental_div_mod_converse(major, 2 * major, 0, major);
        assert(2 * major * minor + major == minor * (2 * major) + major) by (nonlinear_arith);
        vstd::arithmetic::div_mod::lemma_fundamental_div_mod_converse(2 * major * minor + major, 2 * major, minor, major);
        if k > 0 {
            lemma_offset_range(k - 1, major, minor);
            lemma_offset_step(k - 1, major, minor);
        }
        if k < major {
            lemma_offset_monotone(k, major, major, minor);
        }
    }
}

proof fn lemma_offset_monotone(k: int, j: int, major: int, minor: int)
    requires
        0 <= k <= j,
        0 <= minor <= major,
        0 < major,
    ensures
        minor_offset(k, major, minor) <= minor_offset(j, major, minor),
    decreases j - k,
{
    if k < j {
        lemma_offset_step(k, major, minor);
        lemma_offset_monotone(k + 1, j, major, minor);
    }
}

/// The line from `p` to `q` starts at `p`, ends at `q`, and each pixel is an
/// 8-neighbour of the one before it: the coordinates of consecutive pixels
/// differ by at most one.
pub proof fn lemma_line_connected(x0: int, y0: int, x1: int, y1: int, k: int)
    requires
        0 <= k,
        k + 1 < line_len(x0, y0, x1, y1),
    ensures
        line_point(x0, y0, x1, y1, 0) == (x0, y0),
        line_point(x0, y0, x1, y1, line_len(x0, y0, x1, y1) - 1) == (x1, y1),
        abs_diff(line_point(x0, y0, x1, y1, k).0, line_point(x0, y0, x1, y1, k + 1).0) <= 1,
        abs_diff(line_point(x0, y0, x1, y1, k).1, line_point(x0, y0, x1, y1, k + 1).1) <= 1,
{
    lemma_line_ends(x0, y0, x1, y1);
    let dx = abs_diff(x0, x1);
    let dy = abs_diff(y0, y1);
    if dx >= dy {
        lemma_offset_step(k, dx, dy);
    } else {
        lemma_offset_step(k, dy, dx);
    }
}

/// A line has at least one pixel, starts at its first endpoint and ends at its
/// second.
pub proof fn lemma_line_ends(x0: int, y0: int, x1: int, y1: int)
    ensures
        line_len(x0, y0, x1, y1) >= 1,
        line_point(x0, y0, x1, y1, 0) == (x0, y0),
        line_point(x0, y0, x1, y1, line_len(x0, y0, x1, y1) - 1) == (x1, y1),
{
    let dx = abs_diff(x0, x1);
    let dy = abs_diff(y0, y1);
    if dx >= dy {
        lemma_offset_range(0, dx, dy);
        lemma_offset_range(dx, dx, dy);
    } else {
        lemma_offset_range(0, dy, dx);
        lemma_offset_range(dy, dy, dx);
    }
}

/// A single-pass producer of the pixels of a line, first endpoint first.
pub struct LineIterator {
    x0: u32,
    y0: u32,
    x1: u32,
    y1: u32,
    steep: bool,
    major: u64,
    minor: u64,
    /// Pixels handed out so far.
    k: u64,
    /// Offset along the minor axis of the next pixel.
    m: u64,
    /// Bresenham's error term, scaled to stay integral.
    err: u64,
}

impl LineIterator {
    /// The endpoints `(x0, y0, x1, y1)` of the line.
    pub closed spec fn ends(&self) -> (int, int, int, int) {
        (self.x0 as int, self.y0 as int, self.x1 as int, self.y1 as int)
    }

    /// How many pixels have been handed out.
    pub closed spec fn emitted(&self) -> int {
        self.k as int
    }

    /// Number of pixels of the whole line.
    pub open spec fn total(&self) -> int {
        line_len(self.ends().0, self.ends().1, self.ends().2, self.ends().3)
    }

    /// The `k`-th pixel of the line.
    pub open spec fn point(&self, k: int) -> (int, int) {
        line_point(self.ends().0, self.ends().1, self.ends().2, self.ends().3, k)
    }

    pub closed spec fn wf(&self) -> bool {
        let dx = abs_diff(self.x0 as int, self.x1 as int);
        let dy = abs_diff(self.y0 as int, self.y1 as int);
        &&& self.steep == (dx < dy)
        &&& self.major == (if self.steep { dy } else { dx })
        &&& self.minor == (if self.steep { dx } else { dy })
        &&& self.k <= self.major + 1
        &&& self.k <= self.major ==> {
            &&& self.m as int == minor_offset(self.k as int, self.major as int, self.minor as int)
            &&& self.err as int == 2 * self.k * self.minor + self.major - 2 * self.major * self.m
            &&& (self.major > 0 ==> self.err < 2 * self.major)
        }
    }

    /// A producer of the pixels from `(x0, y0)` to `(x1, y1)`.
    pub fn new(x0: u32, y0: u32, x1: u32, y1: u32) -> (it: LineIterator)
        ensures
            it.wf(),
            it.ends() == (x0 as int, y0 as int, x1 as int, y1 as int),
            it.emitted() == 0,
    {
        let dx: u64 = if x0 <= x1 { (x1 - x0) as u64 } else { (x0 - x1) as u64 };
        let dy: u64 = if y0 <= y1 { (y1 - y0) as u64 } else { (y0 - y1) as u64 };
        let steep = dx < dy;
        let major = if steep { dy } else { dx };
        let minor = if steep { dx } else { dy };
        proof {
            lemma_offset_range(0, major as int, minor as int);
        }
        assert(major == 2 * 0 * minor + major - 2 * major * 0) by (nonlinear_arith);
        LineIterator { x0, y0, x1, y1, steep, major, minor, k: 0, m: 0, err: major }
    }

    /// Hands out the next pixel, or `None` once the whole line has been produced.
    pub fn next(&mut self) -> (r: Option<(u32, u32)>)
        requires
            old(self).wf(),
        ensures
            final(self).wf(),
            final(self).ends() == old(self).ends(),
            old(self).emitted() < old(self).total() ==> {
                &&& r.is_some()
                &&& (r.unwrap().0 as int, r.unwrap().1 as int) == old(self).point(old(self).emitted())
                &&& final(self).emitted() == old(self).emitted() + 1
            },
            old(self).emitted() >= old(self).total() ==> r.is_none() && final(self).emitted()
                == old(self).emitted(),
    {
        if self.k > self.major {
            return None;
        }
        proof {
            lemma_offset_range(self.k as int, self.major as int, self.minor as int);
        }
        let a: u64 = self.k;
        let b: u64 = self.m;
        let (dxk, dyk) = if self.steep { (b, a) } else { (a, b) };
        let x: u32 = if self.x0 <= self.x1 { self.x0 + dxk as u32 } else { self.x0 - dxk as u32 };
        let y: u32 = if self.y0 <= self.y1 { self.y0 + dyk as u32 } else { self.y0 - dyk as u32 };
        let ghost k0 = self.k as int;
        let ghost n = 2 * (k0 + 1) * self.minor + self.major;
        let ghost m0 = self.m as int;
        let ghost e0 = self.err as int;
        assert(n == 2 * k0 * self.minor + self.major + 2 * self.minor) by (nonlinear_arith)
            requires
                n == 2 * (k0 + 1) * self.minor + self.major,
        ;
        self.k = self.k + 1;
        self.err = self.err + 2 * self.minor;
        if self.err >= 2 * self.major {
            self.m = self.m + 1;
            self.err = self.err - 2 * self.major;
        }
        proof {
            if self.k <= self.major {
                assert(self.major > 0);
                assert(n == self.m * (2 * self.major) + self.err) by (nonlinear_arith)
                    requires
                        n == 2 * k0 * self.minor + self.major + 2 * self.minor,
                        e0 == 2 * k0 * self.minor + self.major - 2 * self.major * m0,
                        self.k == k0 + 1,
                        (self.m == m0 && self.err == e0 + 2 * self.minor) || (self.m == m0 + 1
                            && self.err == e0 + 2 * self.minor - 2 * self.major),
                ;
                vstd::arithmetic::div_mod::lemma_fundamental_div_mod_converse(
                    n,
                    2 * self.major,
                    self.m as int,
                    self.err as int,
                );
                assert(self.err == 2 * self.k * self.minor + self.major - 2 * self.major * self.m) by (nonlinear_arith)
                    requires
                        n == self.m * (2 * self.major) + self.err,
                        n == 2 * (k0 + 1) * self.minor + self.major,
                        self.k == k0 + 1,
                ;
            }
        }
        Some((x, y))
    }
}

/// Draws the line from `(x0, y0)` to `(x1, y1)` in `color` into a row-major
/// buffer `width` pixels wide. Pixels right of the width or past the buffer's
/// end are skipped.
pub fn draw(x0: u32, y0: u32, x1: u32, y1: u32, color: Color, buffer: &mut Vec<u32>, width: usize)
    ensures
        final(buffer)@.len() == old(buffer)@.len(),
        forall|i: int|
            0 <= i < old(buffer)@.len() ==> #[trigger] final(buffer)@[i] as int == if width > 0
                && line_hits_before(
                x0 as int,
                y0 as int,
                x1 as int,
                y1 as int,
                line_len(x0 as int, y0 as int, x1 as int, y1 as int),
                i % (width as int),
                i / (width as int),
            ) {
                bgra_word(color)
            } else {
                old(buffer)@[i] as int
            },
{
    let word = color.bgra();
    let mut it = LineIterator::new(x0, y0, x1, y1);
    let ghost e = (x0 as int, y0 as int, x1 as int, y1 as int);
    loop
        invariant
            it.wf(),
            it.ends() == e,
            0 <= it.emitted() <= it.total(),
            buffer@.len() == old(buffer)@.len(),
            forall|i: int|
                0 <= i < old(buffer)@.len() ==> #[trigger] buffer@[i] as int == if width > 0
                    && line_hits_before(e.0, e.1, e.2, e.3, it.emitted(), i % (width as int), i / (width as int)) {
                    word as int
                } else {
                    old(buffer)@[i] as int
                },
        ensures
            it.emitted() == it.total(),
        decreases it.total() - it.emitted(),
    {
        let ghost n = it.emitted();
        let ghost prev = buffer@;
        match it.next() {
            None => {
                break;
            },
            Some(p) => {
                let slot = pixel_slot(p.0, p.1, width, buffer.len());
                if let Some(s) = slot {
                    buffer.set(s, word);
                    proof {
                        lemma_slot_coordinates(p.0 as int, p.1 as int, width as int);
                    }
                }
                assert forall|i: int| 0 <= i < old(buffer)@.len() implies #[trigger] buffer@[i] as int
                    == if width > 0 && line_hits_before(e.0, e.1, e.2, e.3, n + 1, i % (width as int), i / (width as int)) {
                    word as int
                } else {
                    old(buffer)@[i] as int
                } by {
                    let px = i % (width as int);
                    let py = i / (width as int);
                    if width > 0 {
                        lemma_coordinates_of_slot(i, width as int);
                        if line_point(e.0, e.1, e.2, e.3, n) == (px, py) {
                            assert(line_hits_before(e.0, e.1, e.2, e.3, n + 1, px, py));
                            assert(slot == Some(i as usize));
                        } else {
                            if line_hits_before(e.0, e.1, e.2, e.3, n + 1, px, py) {
                                let k = choose|k: int| 0 <= k < n + 1 && #[trigger] line_point(e.0, e.1, e.2, e.3, k) == (px, py);
                                assert(line_hits_before(e.0, e.1, e.2, e.3, n, px, py));
                            }
                            if line_hits_before(e.0, e.1, e.2, e.3, n, px, py) {
                                let k = choose|k: int| 0 <= k < n && #[trigger] line_point(e.0, e.1, e.2, e.3, k) == (px, py);
                                assert(line_hits_before(e.0, e.1, e.2, e.3, n + 1, px, py));
                            }
                            if slot.is_some() {
                                assert(slot.unwrap() != i);
                            }
                        }
                    }
                }
            },
        }
    }
    proof {
        lemma_line_ends(e.0, e.1, e.2, e.3);
    }
}

} // verus!
