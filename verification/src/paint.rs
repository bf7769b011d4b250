//! Writing pixels into a framebuffer's pixel memory.
//!
//! The memory is a byte slice; pixel `(x, y)` occupies the `bytes_pp` bytes
//! from `y * stride + x * bytes_pp`, holding its value little-endian. The
//! effect of painting a set of pixels with one value is stated by
//! [`painted`].
use vstd::prelude::*;

verus! {

/// Layout of the pixel memory: bytes per row, bytes per pixel, and the
/// visible size in pixels.
#[derive(Clone, Copy)]
pub struct Geometry {
    pub stride: u64,
    pub bytes_pp: u64,
    pub width: u64,
    pub height: u64,
}

impl Geometry {
    /// The layouts that drawing handles: 1 to 4 bytes per pixel, rows long
    /// enough for their pixels (so no two pixels share a byte), and a memory
    /// whose size fits a `u32`.
    pub open spec fn wf(self) -> bool {
        &&& 1 <= self.bytes_pp <= 4
        &&& self.width * self.bytes_pp <= self.stride
        &&& self.height * self.stride <= u32::MAX
        &&& self.width <= u32::MAX
        &&& self.height <= u32::MAX
    }

    /// Byte offset of pixel `(x, y)`.
    pub open spec fn offset(self, x: int, y: int) -> int {
        y * self.stride + x * self.bytes_pp
    }

    /// Pixel `(x, y)` is on the screen.
    pub open spec fn on_screen(self, x: int, y: int) -> bool {
        0 <= x < self.width && 0 <= y < self.height
    }
}

/// Little-endian byte `k` (0 to 3) of `v`.
pub open spec fn le_byte(v: u32, k: int) -> u8 {
    (if k == 0 {
        v as int % 256
    } else if k == 1 {
        (v as int / 256) % 256
    } else if k == 2 {
        (v as int / 65536) % 256
    } else {
        (v as int / 16777216) % 256
    }) as u8
}

/// Byte `p` of a memory of `len` bytes belongs to the on-screen pixel
/// `(x, y)`, which is in `pix` and lies wholly inside the memory.
pub open spec fn covers(geo: Geometry, pix: spec_fn(int, int) -> bool, len: int, p: int, x: int, y: int) -> bool {
    &&& geo.on_screen(x, y)
    &&& pix(x, y)
    &&& geo.offset(x, y) <= p < geo.offset(x, y) + geo.bytes_pp
    &&& geo.offset(x, y) + geo.bytes_pp <= len
}

/// `fb` after every on-screen pixel in `pix` that lies inside it is set to `v`.
pub open spec fn painted(fb: Seq<u8>, geo: Geometry, pix: spec_fn(int, int) -> bool, v: u32) -> Seq<u8> {
    Seq::new(
        fb.len(),
        |p: int|
            if exists|x: int, y: int| #[trigger] covers(geo, pix, fb.len() as int, p, x, y) {
                let (x, y) = choose|x: int, y: int| #[trigger] covers(geo, pix, fb.len() as int, p, x, y);
                le_byte(v, p - geo.offset(x, y))
            } else {
                fb[p]
            },
    )
}

/// The union of two sets of pixels.
pub open spec fn either(a: spec_fn(int, int) -> bool, b: spec_fn(int, int) -> bool) -> spec_fn(int, int) -> bool {
    |x: int, y: int| a(x, y) || b(x, y)
}

/// The pixels of the `w` x `h` rectangle whose top-left corner is `(x0, y0)`.
pub open spec fn rect(x0: int, y0: int, w: int, h: int) -> spec_fn(int, int) -> bool {
    |x: int, y: int| x0 <= x < x0 + w && y0 <= y < y0 + h
}

/// No byte belongs to two on-screen pixels.
pub proof fn lemma_pixel_unique(geo: Geometry, p: int, x1: int, y1: int, x2: int, y2: int)
    requires
        geo.wf(),
        geo.on_screen(x1, y1),
        geo.on_screen(x2, y2),
        geo.offset(x1, y1) <= p < geo.offset(x1, y1) + geo.bytes_pp,
        geo.offset(x2, y2) <= p < geo.offset(x2, y2) + geo.bytes_pp,
    ensures
        x1 == x2 && y1 == y2,
{
    let n = geo.bytes_pp as int;
    let s = geo.stride as int;
    let w = geo.width as int;
    if y1 == y2 {
        assert(x1 == x2) by (nonlinear_arith)
            requires
                y1 * s + x1 * n <= p < y1 * s + x1 * n + n,
                y1 * s + x2 * n <= p < y1 * s + x2 * n + n,
                n >= 1,
        ;
    } else {
        let (ya, xa, yb, xb) = if y1 < y2 {
            (y1, x1, y2, x2)
        } else {
            (y2, x2, y1, x1)
        };
        assert(false) by (nonlinear_arith)
            requires
                ya < yb,
                0 <= xa < w,
                0 <= xb < w,
                w * n <= s,
                n >= 1,
                ya * s + xa * n <= p < ya * s + xa * n + n,
                yb * s + xb * n <= p < yb * s + xb * n + n,
        ;
    }
}

/// The pixel that a byte belongs to is the one `painted` picks.
pub proof fn lemma_painted_at(fb: Seq<u8>, geo: Geometry, pix: spec_fn(int, int) -> bool, v: u32, p: int, x: int, y: int)
    requires
        geo.wf(),
        0 <= p < fb.len(),
        covers(geo, pix, fb.len() as int, p, x, y),
    ensures
        painted(fb, geo, pix, v)[p] == le_byte(v, p - geo.offset(x, y)),
{
    let (x2, y2) = choose|x2: int, y2: int| #[trigger] covers(geo, pix, fb.len() as int, p, x2, y2);
    lemma_pixel_unique(geo, p, x, y, x2, y2);
}

/// Painting two sets with the same value is painting their union.
pub proof fn lemma_painted_union(
    fb: Seq<u8>,
    geo: Geometry,
    a: spec_fn(int, int) -> bool,
    b: spec_fn(int, int) -> bool,
    v: u32,
)
    requires
        geo.wf(),
    ensures
        painted(painted(fb, geo, a, v), geo, b, v) == painted(fb, geo, either(a, b), v),
{
    let mid = painted(fb, geo, a, v);
    let lhs = painted(mid, geo, b, v);
    let rhs = painted(fb, geo, either(a, b), v);
    let len = fb.len() as int;
    assert forall|p: int| 0 <= p < len implies lhs[p] == rhs[p] by {
        if exists|x: int, y: int| #[trigger] covers(geo, b, len, p, x, y) {
            let (x, y) = choose|x: int, y: int| #[trigger] covers(geo, b, len, p, x, y);
            lemma_painted_at(mid, geo, b, v, p, x, y);
            assert(covers(geo, either(a, b), len, p, x, y));
            lemma_painted_at(fb, geo, either(a, b), v, p, x, y);
        } else if exists|x: int, y: int| #[trigger] covers(geo, a, len, p, x, y) {
            let (x, y) = choose|x: int, y: int| #[trigger] covers(geo, a, len, p, x, y);
            lemma_painted_at(fb, geo, a, v, p, x, y);
            assert(covers(geo, either(a, b), len, p, x, y));
            lemma_painted_at(fb, geo, either(a, b), v, p, x, y);
        } else {
            if exists|x: int, y: int| #[trigger] covers(geo, either(a, b), len, p, x, y) {
                let (x, y) = choose|x: int, y: int| #[trigger] covers(geo, either(a, b), len, p, x, y);
                if a(x, y) {
                    assert(covers(geo, a, len, p, x, y));
                } else {
                    assert(covers(geo, b, len, p, x, y));
                }
            }
        }
    }
    assert(lhs =~= rhs);
}

/// Painting depends only on which on-screen pixels are painted.
pub proof fn lemma_painted_same(
    fb: Seq<u8>,
    geo: Geometry,
    a: spec_fn(int, int) -> bool,
    b: spec_fn(int, int) -> bool,
    v: u32,
)
    requires
        geo.wf(),
        forall|x: int, y: int| geo.on_screen(x, y) ==> (#[trigger] a(x, y) <==> #[trigger] b(x, y)),
    ensures
        painted(fb, geo, a, v) == painted(fb, geo, b, v),
{
    let len = fb.len() as int;
    assert forall|p: int| 0 <= p < len implies painted(fb, geo, a, v)[p] == painted(fb, geo, b, v)[p] by {
        if exists|x: int, y: int| #[trigger] covers(geo, a, len, p, x, y) {
            let (x, y) = choose|x: int, y: int| #[trigger] covers(geo, a, len, p, x, y);
            assert(covers(geo, b, len, p, x, y));
            lemma_painted_at(fb, geo, a, v, p, x, y);
            lemma_painted_at(fb, geo, b, v, p, x, y);
        } else if exists|x: int, y: int| #[trigger] covers(geo, b, len, p, x, y) {
            let (x, y) = choose|x: int, y: int| #[trigger] covers(geo, b, len, p, x, y);
            assert(covers(geo, a, len, p, x, y));
        }
    }
    assert(painted(fb, geo, a, v) =~= painted(fb, geo, b, v));
}

/// Painting no on-screen pixel changes nothing.
pub proof fn lemma_painted_nothing(fb: Seq<u8>, geo: Geometry, a: spec_fn(int, int) -> bool, v: u32)
    requires
        forall|x: int, y: int| geo.on_screen(x, y) ==> !#[trigger] a(x, y),
    ensures
        painted(fb, geo, a, v) == fb,
{
    assert(painted(fb, geo, a, v) =~= fb);
}

/// `fb` after the `n` little-endian bytes of `v` are written at `off`, when
/// they lie wholly inside `fb`.
pub open spec fn put_effect(fb: Seq<u8>, off: int, v: u32, n: int) -> Seq<u8> {
    Seq::new(fb.len(), |p: int| if off + n <= fb.len() && off <= p < off + n { le_byte(v, p - off) } else { fb[p] })
}

/// Little-endian byte `k` of `v`.
fn le_byte_of(v: u32, k: u64) -> (b: u8)
    requires
        k < 4,
    ensures
        b == le_byte(v, k as int),
{
    match k {
        0 => (v % 256) as u8,
        1 => (v / 256 % 256) as u8,
        2 => (v / 65536 % 256) as u8,
        _ => (v / 16777216 % 256) as u8,
    }
}

/// Writes the `n` little-endian bytes of pixel value `v` at byte `off`, when
/// they lie wholly inside `fb`.
pub fn put_pixel(fb: &mut [u8], off: u64, v: u32, n: u64)
    requires
        n <= 4,
        off <= u64::MAX - 4,
    ensures
        final(fb)@ == put_effect(old(fb)@, off as int, v, n as int),
{
    let ghost fb0 = fb@;
    if off + n <= fb.len() as u64 {
        let mut k: u64 = 0;
        while k < n
            invariant
                n <= 4,
                off <= u64::MAX - 4,
                off + n <= fb0.len(),
                k <= n,
                fb@.len() == fb0.len(),
                forall|p: int|
                    0 <= p < fb0.len() ==> #[trigger] fb@[p] == if off <= p < off + k {
                        le_byte(v, p - off)
                    } else {
                        fb0[p]
                    },
            decreases n - k,
        {
            fb[(off + k) as usize] = le_byte_of(v, k);
            k = k + 1;
        }
    }
    assert(fb@ =~= put_effect(fb0, off as int, v, n as int));
}

/// Writing a pixel's bytes at its offset paints that one pixel.
proof fn lemma_put_paints(fb: Seq<u8>, geo: Geometry, x: int, y: int, v: u32)
    requires
        geo.wf(),
        geo.on_screen(x, y),
    ensures
        put_effect(fb, geo.offset(x, y), v, geo.bytes_pp as int) == painted(
            fb,
            geo,
            |xx: int, yy: int| xx == x && yy == y,
            v,
        ),
{
    let single = |xx: int, yy: int| xx == x && yy == y;
    let lhs = put_effect(fb, geo.offset(x, y), v, geo.bytes_pp as int);
    let rhs = painted(fb, geo, single, v);
    let len = fb.len() as int;
    assert forall|p: int| 0 <= p < len implies lhs[p] == rhs[p] by {
        if geo.offset(x, y) + geo.bytes_pp <= len && geo.offset(x, y) <= p < geo.offset(x, y)
            + geo.bytes_pp {
            assert(covers(geo, single, len, p, x, y));
            lemma_painted_at(fb, geo, single, v, p, x, y);
        } else if exists|xx: int, yy: int| #[trigger] covers(geo, single, len, p, xx, yy) {
            let (xx, yy) = choose|xx: int, yy: int| #[trigger] covers(geo, single, len, p, xx, yy);
            assert(xx == x && yy == y);
        }
    }
    assert(lhs =~= rhs);
}

/// The offset of an on-screen pixel, and the end of its bytes, fit a `u32`.
proof fn lemma_offset_bound(geo: Geometry, x: int, y: int)
    requires
        geo.wf(),
        geo.on_screen(x, y),
    ensures
        0 <= geo.offset(x, y),
        geo.offset(x, y) + geo.bytes_pp <= geo.height * geo.stride,
{
    let n = geo.bytes_pp as int;
    let s = geo.stride as int;
    assert(0 <= y * s && (y + 1) * s <= geo.height * s) by (nonlinear_arith)
        requires
            0 <= y < geo.height,
            0 <= s,
    ;
    assert(0 <= x * n && x * n + n <= geo.width * n) by (nonlinear_arith)
        requires
            0 <= x < geo.width,
            1 <= n,
    ;
    assert(y * s + s == (y + 1) * s) by (nonlinear_arith);
}

/// Paints the on-screen pixels of the `w` x `h` rectangle at `(x0, y0)` with
/// pixel value `v`.
pub fn fill_rect(fb: &mut [u8], geo: Geometry, x0: i64, y0: i64, w: u64, h: u64, v: u32)
    requires
        geo.wf(),
        -0x1_0000_0000_0000 <= x0 <= 0x1_0000_0000_0000,
        -0x1_0000_0000_0000 <= y0 <= 0x1_0000_0000_0000,
        w <= 0x1_0000_0000_0000,
        h <= 0x1_0000_0000_0000,
    ensures
        final(fb)@ == painted(old(fb)@, geo, rect(x0 as int, y0 as int, w as int, h as int), v),
{
    let ghost fb0 = fb@;
    let xs: i64 = if x0 < 0 { 0 } else { x0 };
    let xe: i64 = if x0 + (w as i64) < geo.width as i64 { x0 + w as i64 } else { geo.width as i64 };
    let ys: i64 = if y0 < 0 { 0 } else { y0 };
    let ye: i64 = if y0 + (h as i64) < geo.height as i64 { y0 + h as i64 } else { geo.height as i64 };
    let mut y: i64 = ys;
    proof {
        lemma_painted_nothing(fb0, geo, rect(x0 as int, y0 as int, w as int, 0), v);
    }
    while y < ye
        invariant
            geo.wf(),
            0 <= ys <= y,
            y0 <= ys,
            ye <= geo.height,
            ye <= y0 + h,
            ys < ye ==> y <= ye,
            ys >= ye ==> y == ys,
            ye == (if y0 + h < geo.height { y0 + h } else { geo.height as int }),
            ys == (if y0 < 0 { 0 } else { y0 }),
            xs == (if x0 < 0 { 0 } else { x0 }),
            xe == (if x0 + w < geo.width { x0 + w } else { geo.width as int }),
            -0x1_0000_0000_0000 <= x0 <= 0x1_0000_0000_0000,
            fb@ == painted(fb0, geo, rect(x0 as int, y0 as int, w as int, y - y0), v),
        decreases ye - y,
    {
        let mut x: i64 = xs;
        let ghost rows = rect(x0 as int, y0 as int, w as int, y - y0);
        proof {
            lemma_painted_same(fb0, geo, rows, either(rows, rect(x0 as int, y as int, xs - x0, 1)), v);
        }
        while x < xe
            invariant
                geo.wf(),
                0 <= y < geo.height,
                0 <= xs <= x,
                x0 <= xs,
                xe <= geo.width,
                xe <= x0 + w,
                xs < xe ==> x <= xe,
                xs >= xe ==> x == xs,
                xs == (if x0 < 0 { 0 } else { x0 }),
                xe == (if x0 + w < geo.width { x0 + w } else { geo.width as int }),
                rows == rect(x0 as int, y0 as int, w as int, y - y0),
                fb@ == painted(fb0, geo, either(rows, rect(x0 as int, y as int, x - x0, 1)), v),
            decreases xe - x,
        {
            proof {
                lemma_offset_bound(geo, x as int, y as int);
            }
            let off: u64 = (y as u64) * geo.stride + (x as u64) * geo.bytes_pp;
            let ghost before = fb@;
            put_pixel(fb, off, v, geo.bytes_pp);
            proof {
                let row = rect(x0 as int, y as int, x - x0, 1);
                let row2 = rect(x0 as int, y as int, x + 1 - x0, 1);
                let single = |xx: int, yy: int| xx == x && yy == y;
                lemma_put_paints(before, geo, x as int, y as int, v);
                lemma_painted_union(fb0, geo, either(rows, row), single, v);
                lemma_painted_same(fb0, geo, either(either(rows, row), single), either(rows, row2), v);
            }
            x = x + 1;
        }
        proof {
            let row = rect(x0 as int, y as int, x - x0, 1);
            let rows2 = rect(x0 as int, y0 as int, w as int, y + 1 - y0);
            lemma_painted_same(fb0, geo, either(rows, row), rows2, v);
        }
        y = y + 1;
    }
    proof {
        lemma_painted_same(
            fb0,
            geo,
            rect(x0 as int, y0 as int, w as int, y - y0),
            rect(x0 as int, y0 as int, w as int, h as int),
            v,
        );
    }
}

} // verus!
