//! FLIR Ironbow palette: black → violet → red → orange → yellow → white.
use vstd::prelude::*;

verus! {

/// Number of control points of the palette.
pub const CONTROL_POINTS: usize = 7;

/// Palette index of control point `k`.
pub open spec fn cp_index(k: int) -> int {
    if k == 0 {
        0
    } else if k == 1 {
        42
    } else if k == 2 {
        85
    } else if k == 3 {
        128
    } else if k == 4 {
        170
    } else if k == 5 {
        213
    } else {
        255
    }
}

/// Channel `c` (0 red, 1 green, 2 blue) of control point `k`.
pub open spec fn cp_channel(k: int, c: int) -> int {
    let rgb: (int, int, int) = if k == 0 {
        (0, 0, 0)
    } else if k == 1 {
        (30, 0, 200)
    } else if k == 2 {
        (120, 0, 160)
    } else if k == 3 {
        (220, 0, 50)
    } else if k == 4 {
        (255, 100, 0)
    } else if k == 5 {
        (255, 220, 0)
    } else {
        (255, 255, 255)
    };
    if c == 0 {
        rgb.0
    } else if c == 1 {
        rgb.1
    } else {
        rgb.2
    }
}

/// The segment (between control points `s` and `s + 1`) that palette index `i`
/// falls in; index 255 belongs to the last segment.
pub open spec fn iron_segment(i: int) -> int {
    if i < 42 {
        0
    } else if i < 85 {
        1
    } else if i < 128 {
        2
    } else if i < 170 {
        3
    } else if i < 213 {
        4
    } else {
        5
    }
}

/// `a + (b - a) * n / d` rounded half up: the linear interpolation from `a`
/// (at `n == 0`) to `b` (at `n == d`).
pub open spec fn lerp_round(a: int, b: int, n: int, d: int) -> int {
    (2 * a * d + 2 * (b - a) * n + d) / (2 * d)
}

/// Channel `c` of palette entry `i`.
pub open spec fn iron_channel(i: int, c: int) -> int {
    let s = iron_segment(i);
    lerp_round(cp_channel(s, c), cp_channel(s + 1, c), i - cp_index(s), cp_index(s + 1) - cp_index(s))
}

/// Control point `k`: its palette index and colour.
fn control_point(k: usize) -> (p: (u8, u8, u8, u8))
    requires
        k < CONTROL_POINTS,
    ensures
        p.0 == cp_index(k as int),
        p.1 == cp_channel(k as int, 0),
        p.2 == cp_channel(k as int, 1),
        p.3 == cp_channel(k as int, 2),
{
    match k {
        0 => (0, 0, 0, 0),
        1 => (42, 30, 0, 200),
        2 => (85, 120, 0, 160),
        3 => (128, 220, 0, 50),
        4 => (170, 255, 100, 0),
        5 => (213, 255, 220, 0),
        _ => (255, 255, 255, 255),
    }
}

proof fn lemma_lerp_range(a: int, b: int, n: int, d: int)
    requires
        0 <= a <= 255,
        0 <= b <= 255,
        0 <= n <= d,
        0 < d,
    ensures
        0 <= 2 * a * d + 2 * (b - a) * n + d,
        2 * a * d + 2 * (b - a) * n + d < 2 * d * 256,
        0 <= lerp_round(a, b, n, d) <= 255,
{
    let num = 2 * a * d + 2 * (b - a) * n + d;
    assert(num == 2 * a * (d - n) + 2 * b * n + d) by (nonlinear_arith)
        requires
            num == 2 * a * d + 2 * (b - a) * n + d,
    ;
    assert(0 <= 2 * a * (d - n)) by (nonlinear_arith)
        requires
            0 <= a,
            0 <= d - n,
    ;
    assert(0 <= 2 * b * n) by (nonlinear_arith)
        requires
            0 <= b,
            0 <= n,
    ;
    assert(2 * a * (d - n) + 2 * b * n <= 510 * d) by (nonlinear_arith)
        requires
            0 <= a <= 255,
            0 <= b <= 255,
            0 <= n <= d,
    ;
    assert(0 <= num / (2 * d) <= 255) by (nonlinear_arith)
        requires
            0 <= num < 2 * d * 256,
            0 < d,
    ;
}

/// `a + (b - a) * n / d` rounded half up.
fn lerp(a: u8, b: u8, n: u8, d: u8) -> (v: u8)
    requires
        n <= d,
        0 < d,
    ensures
        v == lerp_round(a as int, b as int, n as int, d as int),
{
    proof {
        lemma_lerp_range(a as int, b as int, n as int, d as int);
    }
    let a32 = a as i32;
    let b32 = b as i32;
    let n32 = n as i32;
    let d32 = d as i32;
    assert(0 <= 2 * a32 * d32 <= 130050) by (nonlinear_arith)
        requires
            0 <= a32 <= 255,
            0 < d32 <= 255,
    ;
    assert(-65025 <= (b32 - a32) * n32 <= 65025) by (nonlinear_arith)
        requires
            -255 <= b32 - a32 <= 255,
            0 <= n32 <= 255,
    ;
    let num: i32 = 2 * a32 * d32 + 2 * ((b32 - a32) * n32) + d32;
    assert(num == 2 * (a as int) * (d as int) + 2 * ((b as int) - (a as int)) * (n as int) + (
    d as int)) by (nonlinear_arith)
        requires
            num == 2 * a32 * d32 + 2 * ((b32 - a32) * n32) + d32,
            a32 == a,
            b32 == b,
            n32 == n,
            d32 == d,
    ;
    let v = num / (2 * d32);
    assert(v == lerp_round(a as int, b as int, n as int, d as int));
    v as u8
}

/// FLIR Ironbow palette: black → violet → red → orange → yellow → white.
///
/// Entry `i` interpolates linearly, with rounding half up, between the two
/// control points whose indices enclose `i`.
pub fn iron() -> (p: [[u8; 3]; 256])
    ensures
        forall|i: int, c: int| 0 <= i < 256 && 0 <= c < 3 ==> #[trigger] p@[i]@[c] == iron_channel(i, c),
{
    let mut p = [[0u8; 3]; 256];
    let mut seg: usize = 0;
    let mut i: usize = 0;
    while i < 256
        invariant
            i <= 256,
            seg <= 5,
            i > 0 ==> seg == iron_segment(i - 1),
            i == 0 ==> seg == 0,
            forall|k: int, c: int| 0 <= k < i && 0 <= c < 3 ==> #[trigger] p@[k]@[c] == iron_channel(k, c),
        decreases 256 - i,
    {
        while seg + 2 < CONTROL_POINTS && i >= control_point(seg + 1).0 as usize
            invariant
                i < 256,
                seg <= 5,
                seg <= iron_segment(i as int),
                cp_index(seg as int) <= i,
            decreases 5 - seg,
        {
            seg = seg + 1;
        }
        assert(seg == iron_segment(i as int));
        let (i0, r0, g0, b0) = control_point(seg);
        let (i1, r1, g1, b1) = control_point(seg + 1);
        let n = i as u8 - i0;
        let d = i1 - i0;
        let entry = [lerp(r0, r1, n, d), lerp(g0, g1, n, d), lerp(b0, b1, n, d)];
        p[i] = entry;
        assert(forall|c: int| 0 <= c < 3 ==> #[trigger] p@[i as int]@[c] == iron_channel(i as int, c));
        i = i + 1;
    }
    p
}

/// The palette passes through every control point exactly.
pub proof fn law_iron_hits_control_points(k: int, c: int)
    requires
        0 <= k < CONTROL_POINTS,
        0 <= c < 3,
    ensures
        iron_channel(cp_index(k), c) == cp_channel(k, c),
{
    let i = cp_index(k);
    let s = iron_segment(i);
    let d = cp_index(s + 1) - cp_index(s);
    if k < 6 {
        assert(s == k);
        assert((2 * cp_channel(k, c) * d + d) / (2 * d) == cp_channel(k, c)) by (nonlinear_arith)
            requires
                d > 0,
                0 <= cp_channel(k, c),
        ;
    } else {
        assert(s == 5);
        let a = cp_channel(5, c);
        let b = cp_channel(6, c);
        assert((2 * a * d + 2 * (b - a) * d + d) / (2 * d) == b) by (nonlinear_arith)
            requires
                d > 0,
                0 <= b,
        ;
    }
}

} // verus!
