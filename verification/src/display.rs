//! Drawing a thermal picture on a Linux framebuffer.
//!
//! The framebuffer's pixel memory is `yres * line_length` bytes; pixel
//! `(x, y)` occupies the `bits_per_pixel / 8` bytes from
//! `y * line_length + x * bits_per_pixel / 8`, little-endian. Colours are
//! packed into a pixel value by the channel layout (offset and length of red,
//! green and blue) that the hardware reports, so RGB565, BGR565 and the
//! 32-bit formats are all drawn correctly.
use vstd::prelude::*;
use vstd::arithmetic::div_mod::{lemma_fundamental_div_mod, lemma_fundamental_div_mod_converse};
use crate::font::{chars_of, draw_text_rot90ccw, text_effect};
use crate::frame::ThermalFrame;
use crate::paint::{covers, either, fill_rect, le_byte, lemma_painted_at, lemma_pixel_unique, lemma_painted_same, lemma_painted_union, painted, put_pixel, rect, Geometry};

verus! {

// ── Pixel encoding ──────────────────────────────────────────────────────────

/// Position and width of a colour channel within a pixel.
#[derive(Clone, Copy)]
pub struct FbBitfield {
    pub offset: u32,
    pub length: u32,
}

/// The 8-bit channel value `v` placed in channel field `f`: its top
/// `f.length` bits (or, for a field wider than 8 bits, `v` scaled up to it)
/// shifted left to `f.offset`, within a 32-bit pixel value.
pub open spec fn spec_pack_channel(v: u8, f: FbBitfield) -> u32 {
    if f.length == 0 || f.offset >= 32 || f.length >= 40 {
        0
    } else if f.length <= 8 {
        ((v as u32) >> ((8 - f.length) as u32)) << f.offset
    } else {
        ((v as u32) << ((f.length - 8) as u32)) << f.offset
    }
}

/// The pixel value of colour `(r, g, b)` in the channel layout
/// `red`, `green`, `blue`.
pub open spec fn spec_pack(red: FbBitfield, green: FbBitfield, blue: FbBitfield, r: u8, g: u8, b: u8) -> u32 {
    spec_pack_channel(r, red) | spec_pack_channel(g, green) | spec_pack_channel(b, blue)
}

/// Places channel value `v` in field `f`.
fn pack_channel(v: u8, f: FbBitfield) -> (c: u32)
    ensures
        c == spec_pack_channel(v, f),
{
    if f.length == 0 || f.offset >= 32 || f.length >= 40 {
        0
    } else if f.length <= 8 {
        ((v as u32) >> (8 - f.length)) << f.offset
    } else {
        ((v as u32) << (f.length - 8)) << f.offset
    }
}

/// Packs colour `(r, g, b)` into a pixel value of the given channel layout.
pub fn pack(red: FbBitfield, green: FbBitfield, blue: FbBitfield, r: u8, g: u8, b: u8) -> (p: u32)
    ensures
        p == spec_pack(red, green, blue, r, g, b),
{
    pack_channel(r, red) | pack_channel(g, green) | pack_channel(b, blue)
}

/// Packs an 8-bit-per-channel colour into RGB565: the top five bits of red,
/// the top six bits of green and the top five bits of blue.
pub open spec fn spec_encode565(r: u8, g: u8, b: u8) -> u16 {
    (((r as u16 >> 3u16) << 11u16) | ((g as u16 >> 2u16) << 5u16) | (b as u16 >> 3u16)) as u16
}

/// Encodes a colour as RGB565.
pub fn encode565(r: u8, g: u8, b: u8) -> (p: u16)
    ensures
        p == spec_encode565(r, g, b),
{
    ((r as u16 >> 3) << 11) | ((g as u16 >> 2) << 5) | (b as u16 >> 3)
}

/// RGB565 keeps the top five bits of red, the top six of green and the top
/// five of blue, each in its own field.
pub proof fn law_encode565_fields(r: u8, g: u8, b: u8)
    ensures
        spec_encode565(r, g, b) >> 11u16 == (r >> 3u8) as u16,
        (spec_encode565(r, g, b) >> 5u16) & 0x3Fu16 == (g >> 2u8) as u16,
        spec_encode565(r, g, b) & 0x1Fu16 == (b >> 3u8) as u16,
{
    assert(spec_encode565(r, g, b) >> 11u16 == (r >> 3u8) as u16) by (bit_vector);
    assert((spec_encode565(r, g, b) >> 5u16) & 0x3Fu16 == (g >> 2u8) as u16) by (bit_vector);
    assert(spec_encode565(r, g, b) & 0x1Fu16 == (b >> 3u8) as u16) by (bit_vector);
}

/// On a screen that reports the RGB565 layout (red at 11, green at 5, blue at
/// 0; 5, 6 and 5 bits), packing gives the RGB565 encoding.
pub proof fn law_pack_rgb565(r: u8, g: u8, b: u8)
    ensures
        spec_pack(
            FbBitfield { offset: 11, length: 5 },
            FbBitfield { offset: 5, length: 6 },
            FbBitfield { offset: 0, length: 5 },
            r,
            g,
            b,
        ) == spec_encode565(r, g, b) as u32,
{
    assert((((r as u32) >> 3u32) << 11u32) | (((g as u32) >> 2u32) << 5u32) | (((b as u32) >> 3u32)
        << 0u32) == ((((r as u16 >> 3u16) << 11u16) | ((g as u16 >> 2u16) << 5u16) | (b as u16
        >> 3u16)) as u16) as u32) by (bit_vector);
}

// ── The thermal picture ─────────────────────────────────────────────────────

/// The pixel value of palette entry `g`.
pub open spec fn palette_pixel(vinfo: ScreenInfo, palette: Seq<[u8; 3]>, g: u8) -> u32 {
    spec_pack(vinfo.red, vinfo.green, vinfo.blue, palette[g as int]@[0], palette[g as int]@[1], palette[g as int]@[2])
}

/// `fb` after the `width` x `height` grey image `scaled` is written through
/// `palette`, each pixel as its packed value in `bytes_pp` little-endian bytes,
/// row `y` starting at byte `y * stride`; the bytes of each row after its
/// pixels are left as they were.
pub open spec fn picture_effect(
    fb: Seq<u8>,
    geo: Geometry,
    vinfo: ScreenInfo,
    scaled: Seq<u8>,
    palette: Seq<[u8; 3]>,
) -> Seq<u8> {
    let s = geo.stride as int;
    let n = geo.bytes_pp as int;
    let w = geo.width as int;
    Seq::new(
        fb.len(),
        |p: int|
            {
                let y = p / s;
                let r = p % s;
                if y < geo.height && r < n * w {
                    le_byte(palette_pixel(vinfo, palette, scaled[y * w + r / n]), r % n)
                } else {
                    fb[p]
                }
            },
    )
}

proof fn lemma_row_index(y: int, x: int, w: int, h: int)
    requires
        0 <= y < h,
        0 <= x < w,
    ensures
        0 <= y * w + x < w * h,
{
    assert(y * w + x < w * h) by (nonlinear_arith)
        requires
            0 <= y < h,
            0 <= x < w,
    ;
    assert(0 <= y * w) by (nonlinear_arith)
        requires
            0 <= y,
            0 <= x < w,
    ;
}

/// Writes the grey image `scaled` (one grey level per screen pixel, row-major)
/// through `palette`, in the screen's pixel format.
fn draw_picture(fb: &mut [u8], geo: Geometry, vinfo: ScreenInfo, scaled: &[u8], palette: &[[u8; 3]; 256])
    requires
        geo.wf(),
        0 < geo.width,
        geo.height * geo.stride == old(fb)@.len(),
        scaled@.len() == geo.width * geo.height,
    ensures
        final(fb)@ == picture_effect(old(fb)@, geo, vinfo, scaled@, palette@),
{
    let ghost fb0 = fb@;
    let ghost pic = picture_effect(fb0, geo, vinfo, scaled@, palette@);
    let ghost st = geo.stride as int;
    let ghost n = geo.bytes_pp as int;
    let slen: usize = scaled.len();
    let w = geo.width;
    let h = geo.height;
    let stride = geo.stride;
    let bpp = geo.bytes_pp;
    let mut dy: u64 = 0;
    while dy < h
        invariant
            geo.wf(),
            0 < w,
            w == geo.width && h == geo.height && stride == geo.stride && bpp == geo.bytes_pp,
            st == stride && n == bpp,
            h * stride == fb0.len(),
            slen == w * h,
            scaled@.len() == w * h,
            dy <= h,
            fb@.len() == fb0.len(),
            pic == picture_effect(fb0, geo, vinfo, scaled@, palette@),
            forall|p: int| 0 <= p < fb0.len() ==> #[trigger] fb@[p] == if p / st < dy { pic[p] } else { fb0[p] },
        decreases h - dy,
    {
        assert(dy * stride + stride <= h * stride) by (nonlinear_arith)
            requires
                dy < h,
                0 <= stride,
        ;
        let row_off: u64 = dy * stride;
        let mut dx: u64 = 0;
        while dx < w
            invariant
                geo.wf(),
                0 < w,
                w == geo.width && h == geo.height && stride == geo.stride && bpp == geo.bytes_pp,
                st == stride && n == bpp,
                h * stride == fb0.len(),
                slen == w * h,
                scaled@.len() == w * h,
                dy < h,
                dx <= w,
                row_off == dy * stride,
                row_off + stride <= fb0.len(),
                fb@.len() == fb0.len(),
                pic == picture_effect(fb0, geo, vinfo, scaled@, palette@),
                forall|p: int|
                    0 <= p < fb0.len() ==> #[trigger] fb@[p] == if p / st < dy || (p / st == dy && p % st < n
                        * dx) {
                        pic[p]
                    } else {
                        fb0[p]
                    },
            decreases w - dx,
        {
            proof {
                lemma_row_index(dy as int, dx as int, w as int, h as int);
            }
            assert(dx * bpp + bpp <= w * bpp && w * bpp <= stride) by (nonlinear_arith)
                requires
                    dx < w,
                    1 <= bpp,
                    w * bpp <= stride,
            ;
            let g = scaled[(dy * w + dx) as usize];
            let rgb = palette[g as usize];
            let px = pack(vinfo.red, vinfo.green, vinfo.blue, rgb[0], rgb[1], rgb[2]);
            let off: u64 = row_off + dx * bpp;
            let ghost before = fb@;
            put_pixel(fb, off, px, bpp);
            proof {
                let xo = n * dx;
                assert(n * dx == dx * bpp) by (nonlinear_arith)
                    requires
                        n == bpp,
                ;
                assert forall|p: int| 0 <= p < fb0.len() implies #[trigger] fb@[p] == if p / st < dy
                    || (p / st == dy && p % st < n * (dx + 1)) {
                    pic[p]
                } else {
                    fb0[p]
                } by {
                    if off <= p < off + n {
                        let k = p - off;
                        lemma_fundamental_div_mod_converse(p, st, dy as int, xo + k);
                        lemma_fundamental_div_mod_converse(xo + k, n, dx as int, k);
                        assert(n * (dx + 1) == xo + n) by (nonlinear_arith)
                            requires
                                xo == n * dx,
                        ;
                        assert(pic[p] == le_byte(px, k));
                    } else {
                        lemma_fundamental_div_mod(p, st);
                        if p / st == dy {
                            assert(st * (p / st) == row_off as int) by (nonlinear_arith)
                                requires
                                    p / st == dy,
                                    row_off == dy * stride,
                                    st == stride,
                            ;
                            assert(n * (dx + 1) == xo + n) by (nonlinear_arith)
                                requires
                                    xo == n * dx,
                            ;
                        }
                        assert(before[p] == fb@[p]);
                    }
                }
            }
            dx = dx + 1;
        }
        proof {
            assert forall|p: int| 0 <= p < fb0.len() implies #[trigger] fb@[p] == if p / st < dy + 1 {
                pic[p]
            } else {
                fb0[p]
            } by {
                if p / st == dy && p % st >= n * w {
                    assert(pic[p] == fb0[p]);
                }
            }
        }
        dy = dy + 1;
    }
    proof {
        assert forall|p: int| 0 <= p < fb0.len() implies #[trigger] fb@[p] == pic[p] by {
            lemma_fundamental_div_mod(p, st);
            assert(p / st < h) by (nonlinear_arith)
                requires
                    p == st * (p / st) + p % st,
                    0 <= p % st,
                    p < h * st,
                    st > 0,
            ;
        }
        assert(fb@ =~= pic);
    }
}

// ── Scaling ─────────────────────────────────────────────────────────────────

/// Nearest-neighbour scaling from `src` pixels to `dst`: the source
/// coordinate under the centre of destination coordinate `d`,
/// `floor((d + 1/2) * src / dst)`, kept inside the source.
pub open spec fn nearest(d: int, dst: int, src: int) -> int {
    let s = (2 * d + 1) * src / (2 * dst);
    if s < src - 1 {
        s
    } else {
        src - 1
    }
}

/// Grey level of pixel `(x, y)` of the 160 x 120 image `gray` scaled to
/// `w` x `h` by nearest neighbour.
pub open spec fn scaled_pixel(gray: Seq<u8>, w: int, h: int, x: int, y: int) -> u8 {
    gray[160 * nearest(y, h, 120) + nearest(x, w, 160)]
}

/// The 160 x 120 image `gray` scaled to `w` x `h` by nearest neighbour,
/// row-major.
pub open spec fn scaled_image(gray: Seq<u8>, w: int, h: int) -> Seq<u8> {
    Seq::new((w * h) as nat, |k: int| scaled_pixel(gray, w, h, k % w, k / w))
}

/// The source coordinate for destination coordinate `d` (see [`nearest`]).
fn nearest_index(d: u64, dst: u64, src: u64) -> (s: u64)
    requires
        d < dst <= u32::MAX,
        1 <= src <= 160,
    ensures
        s == nearest(d as int, dst as int, src as int),
        s < src,
{
    assert((2 * d + 1) * src <= (2 * 0xFFFF_FFFFu64 + 1) * 160) by (nonlinear_arith)
        requires
            d < 0xFFFF_FFFFu64,
            1 <= src <= 160,
    ;
    let s = (2 * d + 1) * src / (2 * dst);
    if s < src - 1 {
        s
    } else {
        src - 1
    }
}

/// Scales the 160 x 120 thermal image to `width` x `height` by nearest
/// neighbour: each output pixel takes the source pixel under its centre.
pub fn scale_nearest(gray: &[u8; 19200], width: u32, height: u32) -> (out: Vec<u8>)
    requires
        1 <= width,
        1 <= height,
        width * height <= usize::MAX,
    ensures
        out@.len() == width * height,
        forall|x: int, y: int|
            0 <= x < width && 0 <= y < height ==> out@[y * width + x] == gray@[160 * nearest(
                y,
                height as int,
                120,
            ) + nearest(x, width as int, 160)],
        out@ == scaled_image(gray@, width as int, height as int),
{
    let ghost w = width as int;
    let ghost h = height as int;
    let mut out: Vec<u8> = Vec::new();
    let mut y: u64 = 0;
    while y < height as u64
        invariant
            w == width && h == height,
            1 <= width,
            y <= height,
            out@.len() == y * w,
            forall|k: int| 0 <= k < out@.len() ==> #[trigger] out@[k] == scaled_pixel(gray@, w, h, k % w, k / w),
        decreases height - y,
    {
        let sy = nearest_index(y, height as u64, 120);
        let mut x: u64 = 0;
        while x < width as u64
            invariant
                w == width && h == height,
                1 <= width,
                y < height,
                x <= width,
                sy == nearest(y as int, h, 120),
                sy < 120,
                out@.len() == y * w + x,
                forall|k: int| 0 <= k < out@.len() ==> #[trigger] out@[k] == scaled_pixel(gray@, w, h, k % w, k / w),
            decreases width - x,
        {
            let sx = nearest_index(x, width as u64, 160);
            let ghost before = out@;
            out.push(gray[(160 * sy + sx) as usize]);
            proof {
                lemma_fundamental_div_mod_converse(y * w + x, w, y as int, x as int);
                assert forall|k: int| 0 <= k < out@.len() implies #[trigger] out@[k] == scaled_pixel(gray@, w, h, k % w, k / w) by {
                    if k < before.len() {
                        assert(out@[k] == before[k]);
                    }
                }
            }
            x = x + 1;
        }
        assert(y * w + w == (y + 1) * w) by (nonlinear_arith);
        y = y + 1;
    }
    proof {
        assert(h * w == w * h) by (nonlinear_arith);
        assert forall|x: int, y: int| 0 <= x < width && 0 <= y < height implies out@[y * width + x]
            == gray@[160 * nearest(y, height as int, 120) + nearest(x, width as int, 160)] by {
            lemma_row_index(y, x, w, h);
            lemma_fundamental_div_mod_converse(y * w + x, w, y, x);
        }
        assert(out@ =~= scaled_image(gray@, w, h));
    }
    out
}

// ── Crosshair ───────────────────────────────────────────────────────────────

/// The crosshair's pixels: the horizontal and vertical arms through the
/// centre `(width / 2, height / 2)`, 19 pixels long on each side, with a gap of
/// 5 pixels on each side of the centre.
pub open spec fn crosshair(geo: Geometry) -> spec_fn(int, int) -> bool {
    let cx = geo.width / 2;
    let cy = geo.height / 2;
    |x: int, y: int|
        (y == cy && cx - 19 <= x <= cx + 19 && (x < cx - 5 || x > cx + 5)) || (x == cx && cy - 19
            <= y <= cy + 19 && (y < cy - 5 || y > cy + 5))
}

/// The crosshair is symmetric and straight: on a screen centred at
/// `(cx, cy) = (width / 2, height / 2)`, every on-screen pixel `(cx, cy ± k)`
/// and `(cx ± k, cy)` with `6 <= k <= 19` takes the crosshair's value, and
/// every other pixel (off the two lines, in the gap round the centre, or
/// beyond the arms) keeps its bytes.
pub proof fn law_crosshair_shape(fb: Seq<u8>, geo: Geometry, white: u32, x: int, y: int, k: int)
    requires
        geo.wf(),
        geo.on_screen(x, y),
        geo.offset(x, y) + geo.bytes_pp <= fb.len(),
        0 <= k < geo.bytes_pp,
    ensures
        painted(fb, geo, crosshair(geo), white)[geo.offset(x, y) + k] == if (x == geo.width / 2 && (6
            <= y - geo.height / 2 <= 19 || 6 <= geo.height / 2 - y <= 19)) || (y == geo.height / 2 && (6
            <= x - geo.width / 2 <= 19 || 6 <= geo.width / 2 - x <= 19)) {
            le_byte(white, k)
        } else {
            fb[geo.offset(x, y) + k]
        },
{
    let p = geo.offset(x, y) + k;
    let cross = crosshair(geo);
    let len = fb.len() as int;
    if cross(x, y) {
        assert(covers(geo, cross, len, p, x, y));
        lemma_painted_at(fb, geo, cross, white, p, x, y);
    } else if exists|x2: int, y2: int| #[trigger] covers(geo, cross, len, p, x2, y2) {
        let (x2, y2) = choose|x2: int, y2: int| #[trigger] covers(geo, cross, len, p, x2, y2);
        lemma_pixel_unique(geo, p, x, y, x2, y2);
    }
}

/// Gap between the crosshair's centre and its arms, in pixels.
const GAP: i64 = 5;

/// Length of each crosshair arm, in pixels.
const ARM: i64 = 14;

/// Draws the crosshair overlay in pixel value `white`.
fn draw_crosshair(fb: &mut [u8], geo: Geometry, white: u32)
    requires
        geo.wf(),
    ensures
        final(fb)@ == painted(old(fb)@, geo, crosshair(geo), white),
{
    let ghost fb0 = fb@;
    let cx = (geo.width / 2) as i64;
    let cy = (geo.height / 2) as i64;
    fill_rect(fb, geo, cx - (ARM + GAP), cy, ARM as u64, 1, white);
    fill_rect(fb, geo, cx + GAP + 1, cy, ARM as u64, 1, white);
    fill_rect(fb, geo, cx, cy - (ARM + GAP), 1, ARM as u64, white);
    fill_rect(fb, geo, cx, cy + GAP + 1, 1, ARM as u64, white);
    proof {
        let a = rect(cx - 19, cy as int, 14, 1);
        let b = rect(cx + 6, cy as int, 14, 1);
        let c = rect(cx as int, cy - 19, 1, 14);
        let d = rect(cx as int, cy + 6, 1, 14);
        lemma_painted_union(fb0, geo, a, b, white);
        lemma_painted_union(fb0, geo, either(a, b), c, white);
        lemma_painted_union(fb0, geo, either(either(a, b), c), d, white);
        lemma_painted_same(fb0, geo, either(either(either(a, b), c), d), crosshair(geo), white);
    }
}

// ── Decimal formatting ──────────────────────────────────────────────────────

/// The character of decimal digit `d`.
pub open spec fn digit_char(d: int) -> char {
    if d == 0 {
        '0'
    } else if d == 1 {
        '1'
    } else if d == 2 {
        '2'
    } else if d == 3 {
        '3'
    } else if d == 4 {
        '4'
    } else if d == 5 {
        '5'
    } else if d == 6 {
        '6'
    } else if d == 7 {
        '7'
    } else if d == 8 {
        '8'
    } else {
        '9'
    }
}

/// Decimal representation of `n`, without leading zeros.
pub open spec fn decimal(n: nat) -> Seq<char>
    decreases n,
{
    if n < 10 {
        seq![digit_char(n as int)]
    } else {
        decimal(n / 10).push(digit_char((n % 10) as int))
    }
}

/// The one-character string of decimal digit `d`.
fn digit_str(d: u32) -> (s: &'static str)
    requires
        d < 10,
    ensures
        s@ == seq![digit_char(d as int)],
{
    proof {
        reveal_strlit("0");
        reveal_strlit("1");
        reveal_strlit("2");
        reveal_strlit("3");
        reveal_strlit("4");
        reveal_strlit("5");
        reveal_strlit("6");
        reveal_strlit("7");
        reveal_strlit("8");
        reveal_strlit("9");
    }
    match d {
        0 => "0",
        1 => "1",
        2 => "2",
        3 => "3",
        4 => "4",
        5 => "5",
        6 => "6",
        7 => "7",
        8 => "8",
        _ => "9",
    }
}

/// Appends the decimal representation of `n` to `s`.
fn push_decimal(s: &mut String, n: u32)
    ensures
        final(s)@ == old(s)@ + decimal(n as nat),
    decreases n,
{
    if n >= 10 {
        push_decimal(s, n / 10);
    }
    s.append(digit_str(n % 10));
    proof {
        if n >= 10 {
            assert(decimal(n as nat) == decimal((n / 10) as nat).push(digit_char((n % 10) as int)));
        }
    }
}

// ── The framebuffer ─────────────────────────────────────────────────────────
/// The variable screen information of a framebuffer that the drawing reads.
#[derive(Clone, Copy)]
pub struct ScreenInfo {
    pub xres: u32,
    pub yres: u32,
    pub bits_per_pixel: u32,
    pub red: FbBitfield,
    pub green: FbBitfield,
    pub blue: FbBitfield,
}

/// A Linux framebuffer's format: its screen information and the length of a
/// line in bytes. Its pixel memory is `yres * line_length` bytes.
#[derive(Clone, Copy)]
pub struct Framebuffer {
    pub vinfo: ScreenInfo,
    pub line_length: u32,
}

/// `a - b`, or 0 when `b > a`.
pub open spec fn sat_sub(a: int, b: int) -> int {
    if a > b {
        a - b
    } else {
        0
    }
}

/// Scale of the temperature label for a screen `h` pixels high.
pub open spec fn label_scale(h: int) -> int {
    if h / 120 > 1 {
        h / 120
    } else {
        1
    }
}

impl Framebuffer {
    /// Bytes per pixel.
    pub open spec fn bytes_pp(self) -> int {
        (self.vinfo.bits_per_pixel / 8) as int
    }

    /// The pixel format is one that is drawn: 1 to 4 bytes per pixel.
    pub open spec fn drawable(self) -> bool {
        1 <= self.bytes_pp() <= 4
    }

    /// Layout of the pixel memory.
    pub open spec fn geometry(self) -> Geometry {
        Geometry {
            stride: self.line_length as u64,
            bytes_pp: (self.vinfo.bits_per_pixel / 8) as u64,
            width: self.vinfo.xres as u64,
            height: self.vinfo.yres as u64,
        }
    }

    /// The size of the pixel memory: `yres * line_length`.
    pub open spec fn spec_map_size(self) -> int {
        self.vinfo.yres * self.line_length
    }

    /// White in the screen's pixel format.
    pub open spec fn white(self) -> u32 {
        spec_pack(self.vinfo.red, self.vinfo.green, self.vinfo.blue, 0xFF, 0xFF, 0xFF)
    }

    /// The pixel memory after `draw_thermal`: on a screen with 1 to 4 bytes per
    /// pixel, the picture (the thermal image `gray` scaled to the screen by
    /// nearest neighbour, coloured through the palette), then the crosshair in white, then the label rotated
    /// -90° to the right of the crosshair, vertically centred (black outline,
    /// white glyphs); other screens are left as they are.
    pub open spec fn thermal_effect(self, fb: Seq<u8>, gray: Seq<u8>, palette: Seq<[u8; 3]>, label: Seq<char>) -> Seq<u8> {
        if self.drawable() {
            let geo = self.geometry();
            let w = self.vinfo.xres as int;
            let h = self.vinfo.yres as int;
            let cx = w / 2;
            let cy = h / 2;
            let pic = picture_effect(fb, geo, self.vinfo, scaled_image(gray, w, h), palette);
            let cross = painted(pic, geo, crosshair(geo), self.white());
            let scale = label_scale(h);
            let label_h = label.len() * (5 * scale + 1);
            let tx = if cx + 8 < sat_sub(w, 7 * scale) {
                cx + 8
            } else {
                sat_sub(w, 7 * scale)
            };
            let ty = sat_sub(cy, label_h / 2);
            text_effect(cross, geo, tx, ty, label, scale, self.white(), label.len() as int)
        } else {
            fb
        }
    }

    /// The channel layout as `R[off=.. len=..] G[off=.. len=..] B[off=.. len=..]`.
    pub open spec fn format_spec(self) -> Seq<char> {
        let vi = self.vinfo;
        "R[off="@ + decimal(vi.red.offset as nat) + " len="@ + decimal(vi.red.length as nat) + "] G[off="@
            + decimal(vi.green.offset as nat) + " len="@ + decimal(vi.green.length as nat)
            + "] B[off="@ + decimal(vi.blue.offset as nat) + " len="@ + decimal(
            vi.blue.length as nat,
        ) + "]"@
    }

    /// Horizontal resolution in pixels.
    pub fn width(&self) -> (w: u32)
        ensures
            w == self.vinfo.xres,
    {
        self.vinfo.xres
    }

    /// Vertical resolution in pixels.
    pub fn height(&self) -> (h: u32)
        ensures
            h == self.vinfo.yres,
    {
        self.vinfo.yres
    }

    /// Bits per pixel.
    pub fn bpp(&self) -> (b: u32)
        ensures
            b == self.vinfo.bits_per_pixel,
    {
        self.vinfo.bits_per_pixel
    }

    /// Size of the pixel memory in bytes: `yres * line_length`.
    pub fn map_size(&self) -> (n: usize)
        requires
            self.spec_map_size() <= u32::MAX,
        ensures
            n == self.spec_map_size(),
    {
        (self.vinfo.yres * self.line_length) as usize
    }

    /// The channel layout, for the log.
    pub fn pixel_format_str(&self) -> (s: String)
        ensures
            s@ == self.format_spec(),
    {
        let vi = &self.vinfo;
        let mut s = String::new();
        s.append("R[off=");
        push_decimal(&mut s, vi.red.offset);
        s.append(" len=");
        push_decimal(&mut s, vi.red.length);
        s.append("] G[off=");
        push_decimal(&mut s, vi.green.offset);
        s.append(" len=");
        push_decimal(&mut s, vi.green.length);
        s.append("] B[off=");
        push_decimal(&mut s, vi.blue.offset);
        s.append(" len=");
        push_decimal(&mut s, vi.blue.length);
        s.append("]");
        s
    }

    /// Writes a thermal picture to the pixel memory `fb`, then the crosshair
    /// and the temperature `label`, in the screen's pixel format.
    ///
    /// The thermal image is scaled to fill the screen by nearest neighbour and
    /// each grey level is coloured through `palette`.
    pub fn draw_thermal(&self, fb: &mut [u8], frame: &ThermalFrame, palette: &[[u8; 3]; 256], label: &str)
        requires
            self.vinfo.xres >= 1,
            self.vinfo.yres >= 1,
            self.spec_map_size() <= u32::MAX,
            old(fb)@.len() == self.spec_map_size(),
            self.drawable() ==> self.bytes_pp() * self.vinfo.xres <= self.line_length,
        ensures
            final(fb)@ == self.thermal_effect(old(fb)@, frame.gray@, palette@, label@),
    {
        let fb_w = self.vinfo.xres as u64;
        let fb_h = self.vinfo.yres as u64;
        let bytes_pp = (self.vinfo.bits_per_pixel / 8) as u64;
        if bytes_pp < 1 || bytes_pp > 4 {
            return;
        }
        let stride = self.line_length as u64;
        let geo = Geometry { stride, bytes_pp, width: fb_w, height: fb_h };
        assert(geo == self.geometry());
        assert(fb_w * bytes_pp <= stride) by (nonlinear_arith)
            requires
                bytes_pp * fb_w <= stride,
        ;
        let vi = self.vinfo;
        let white = pack(vi.red, vi.green, vi.blue, 0xFF, 0xFF, 0xFF);
        assert(fb_w * fb_h <= fb_h * stride) by (nonlinear_arith)
            requires
                fb_w * bytes_pp <= stride,
                1 <= bytes_pp,
        ;
        let scaled = scale_nearest(&frame.gray, self.vinfo.xres, self.vinfo.yres);
        draw_picture(fb, geo, vi, scaled.as_slice(), palette);
        draw_crosshair(fb, geo, white);
        // Temperature annotation — rotated -90° (reads bottom-to-top), right of crosshair.
        let cx = fb_w / 2;
        let cy = fb_h / 2;
        let scale: u64 = if fb_h / 120 > 1 {
            fb_h / 120
        } else {
            1
        };
        let n = chars_of(label).len() as u128;
        assert(n * (5 * scale + 1) <= 0x1_0000_0000_0000_0000 * (5 * 0x400_0000 + 1)) by (nonlinear_arith)
            requires
                n <= 0x1_0000_0000_0000_0000,
                1 <= scale <= 0x400_0000,
        ;
        let label_h: u128 = n * (5 * scale as u128 + 1);
        let right: u64 = if fb_w > 7 * scale {
            fb_w - 7 * scale
        } else {
            0
        };
        let tx: u64 = if cx + 8 < right {
            cx + 8
        } else {
            right
        };
        let ty: u64 = if cy as u128 > label_h / 2 {
            (cy as u128 - label_h / 2) as u64
        } else {
            0
        };
        draw_text_rot90ccw(fb, geo, tx, ty, label, scale, white);
    }
}

} // verus!
