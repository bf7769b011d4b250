//! The 5 x 7 bitmap font and text drawn rotated -90°.
use vstd::prelude::*;
use crate::paint::{covers, either, fill_rect, le_byte, lemma_painted_at, lemma_painted_nothing, lemma_painted_same, lemma_painted_union, painted, rect, Geometry};

verus! {

// ── Glyphs ──────────────────────────────────────────────────────────────────

/// Rows of the 5 x 7 bitmap of `c` (bit 4 is the leftmost column), for the
/// characters a temperature label uses.
pub open spec fn glyph_rows(c: char) -> Option<Seq<u8>> {
    if c == '0' {
        Some(seq![0b01110u8, 0b10001, 0b10001, 0b10001, 0b10001, 0b10001, 0b01110])
    } else if c == '1' {
        Some(seq![0b00100u8, 0b01100, 0b00100, 0b00100, 0b00100, 0b00100, 0b01110])
    } else if c == '2' {
        Some(seq![0b01110u8, 0b10001, 0b00001, 0b00010, 0b00100, 0b01000, 0b11111])
    } else if c == '3' {
        Some(seq![0b01110u8, 0b00001, 0b00001, 0b01110, 0b00001, 0b00001, 0b01110])
    } else if c == '4' {
        Some(seq![0b00010u8, 0b00110, 0b01010, 0b10010, 0b11111, 0b00010, 0b00010])
    } else if c == '5' {
        Some(seq![0b11111u8, 0b10000, 0b10000, 0b11110, 0b00001, 0b00001, 0b11110])
    } else if c == '6' {
        Some(seq![0b00110u8, 0b01000, 0b10000, 0b11110, 0b10001, 0b10001, 0b01110])
    } else if c == '7' {
        Some(seq![0b11111u8, 0b00001, 0b00001, 0b00010, 0b00100, 0b00100, 0b00100])
    } else if c == '8' {
        Some(seq![0b01110u8, 0b10001, 0b10001, 0b01110, 0b10001, 0b10001, 0b01110])
    } else if c == '9' {
        Some(seq![0b01110u8, 0b10001, 0b10001, 0b01111, 0b00001, 0b00001, 0b01110])
    } else if c == '.' {
        Some(seq![0b00000u8, 0b00000, 0b00000, 0b00000, 0b00000, 0b01100, 0b01100])
    } else if c == '-' {
        Some(seq![0b00000u8, 0b00000, 0b00000, 0b11111, 0b00000, 0b00000, 0b00000])
    } else if c == 'C' {
        Some(seq![0b01110u8, 0b10001, 0b10000, 0b10000, 0b10000, 0b10001, 0b01110])
    } else {
        None
    }
}

/// 5 x 7 bitmap font: each entry is 7 rows; bit 4 = leftmost column.
pub fn char_bitmap(c: char) -> (bm: Option<[u8; 7]>)
    ensures
        match bm {
            Some(rows) => glyph_rows(c) == Some(rows@),
            None => glyph_rows(c) is None,
        },
{
    let rows: [u8; 7] = match c {
        '0' => [0b01110, 0b10001, 0b10001, 0b10001, 0b10001, 0b10001, 0b01110],
        '1' => [0b00100, 0b01100, 0b00100, 0b00100, 0b00100, 0b00100, 0b01110],
        '2' => [0b01110, 0b10001, 0b00001, 0b00010, 0b00100, 0b01000, 0b11111],
        '3' => [0b01110, 0b00001, 0b00001, 0b01110, 0b00001, 0b00001, 0b01110],
        '4' => [0b00010, 0b00110, 0b01010, 0b10010, 0b11111, 0b00010, 0b00010],
        '5' => [0b11111, 0b10000, 0b10000, 0b11110, 0b00001, 0b00001, 0b11110],
        '6' => [0b00110, 0b01000, 0b10000, 0b11110, 0b10001, 0b10001, 0b01110],
        '7' => [0b11111, 0b00001, 0b00001, 0b00010, 0b00100, 0b00100, 0b00100],
        '8' => [0b01110, 0b10001, 0b10001, 0b01110, 0b10001, 0b10001, 0b01110],
        '9' => [0b01110, 0b10001, 0b10001, 0b01111, 0b00001, 0b00001, 0b01110],
        '.' => [0b00000, 0b00000, 0b00000, 0b00000, 0b00000, 0b01100, 0b01100],
        '-' => [0b00000, 0b00000, 0b00000, 0b11111, 0b00000, 0b00000, 0b00000],
        'C' => [0b01110, 0b10001, 0b10000, 0b10000, 0b10000, 0b10001, 0b01110],
        _ => return None,
    };
    assert(glyph_rows(c) == Some(rows@));
    Some(rows)
}


/// Pixel `(row, col)` of a glyph bitmap is set.
pub open spec fn lit(bm: Seq<u8>, row: int, col: int) -> bool {
    bm[row] & (0x10u8 >> (col as u8)) != 0
}

/// Pixels painted for glyph cell `(row, col)`, drawn rotated -90° with its
/// top-left corner at `(ox, oy)` and each cell scaled to `s` x `s` pixels:
/// the cell's block (at `(ox + row * s, oy + (4 - col) * s)`), or for the
/// outline the block shifted one pixel left, right, up and down.
pub open spec fn cell_set(ox: int, oy: int, s: int, outline: bool, row: int, col: int) -> spec_fn(int, int) -> bool {
    let x0 = ox + row * s;
    let y0 = oy + (4 - col) * s;
    if outline {
        either(
            either(rect(x0 - 1, y0, s, s), rect(x0 + 1, y0, s, s)),
            either(rect(x0, y0 - 1, s, s), rect(x0, y0 + 1, s, s)),
        )
    } else {
        rect(x0, y0, s, s)
    }
}

/// Pixels painted for the set cells `(row, col)` that come before `(r, c)` in
/// row-major order.
pub open spec fn pass_set(ox: int, oy: int, s: int, bm: Seq<u8>, outline: bool, r: int, c: int) -> spec_fn(int, int) -> bool {
    |x: int, y: int|
        exists|row: int, col: int|
            0 <= row < 7 && 0 <= col < 5 && (row < r || (row == r && col < c)) && lit(bm, row, col)
                && #[trigger] cell_set(ox, oy, s, outline, row, col)(x, y)
}

/// `fb` after drawing glyph `bm` rotated -90° at `(ox, oy)` with scale `s`:
/// first the outline in black (pixel value 0), then the glyph in `white`.
pub open spec fn glyph_effect(fb: Seq<u8>, geo: Geometry, ox: int, oy: int, s: int, bm: Seq<u8>, white: u32) -> Seq<u8> {
    painted(
        painted(fb, geo, pass_set(ox, oy, s, bm, true, 7, 0), 0u32),
        geo,
        pass_set(ox, oy, s, bm, false, 7, 0),
        white,
    )
}

/// Paints one glyph cell (see [`cell_set`]) with `v`.
fn paint_cell(fb: &mut [u8], geo: Geometry, ox: u64, oy: u64, s: u64, outline: bool, row: u64, col: u64, v: u32)
    requires
        geo.wf(),
        ox <= 0x4000_0000_0000,
        oy <= 0x4000_0000_0000,
        s <= 0x1_0000_0000,
        row < 7,
        col < 5,
    ensures
        final(fb)@ == painted(
            old(fb)@,
            geo,
            cell_set(ox as int, oy as int, s as int, outline, row as int, col as int),
            v,
        ),
{
    let ghost fb0 = fb@;
    assert(row * s <= 7 * 0x1_0000_0000 && (4 - col) * s <= 4 * 0x1_0000_0000) by (nonlinear_arith)
        requires
            row < 7,
            col < 5,
            s <= 0x1_0000_0000,
    ;
    let x0: i64 = (ox + row * s) as i64;
    let y0: i64 = (oy + (4 - col) * s) as i64;
    if outline {
        fill_rect(fb, geo, x0 - 1, y0, s, s, v);
        fill_rect(fb, geo, x0 + 1, y0, s, s, v);
        fill_rect(fb, geo, x0, y0 - 1, s, s, v);
        fill_rect(fb, geo, x0, y0 + 1, s, s, v);
        proof {
            let a = rect(x0 - 1, y0 as int, s as int, s as int);
            let b = rect(x0 + 1, y0 as int, s as int, s as int);
            let c = rect(x0 as int, y0 - 1, s as int, s as int);
            let d = rect(x0 as int, y0 + 1, s as int, s as int);
            lemma_painted_union(fb0, geo, a, b, v);
            lemma_painted_union(fb0, geo, either(a, b), c, v);
            lemma_painted_union(fb0, geo, either(either(a, b), c), d, v);
            lemma_painted_same(fb0, geo, either(either(either(a, b), c), d), either(either(a, b), either(c, d)), v);
        }
    } else {
        fill_rect(fb, geo, x0, y0, s, s, v);
    }
}

/// Passing cell `(r, c)` adds its pixels to the pass set when it is set.
proof fn lemma_pass_set_next(ox: int, oy: int, s: int, bm: Seq<u8>, outline: bool, r: int, c: int)
    requires
        0 <= r < 7,
        0 <= c < 5,
    ensures
        forall|x: int, y: int|
            #[trigger] pass_set(ox, oy, s, bm, outline, r, c + 1)(x, y) <==> (pass_set(ox, oy, s, bm, outline, r, c)(x, y)
                || (lit(bm, r, c) && cell_set(ox, oy, s, outline, r, c)(x, y))),
{
    assert forall|x: int, y: int|
        #[trigger] pass_set(ox, oy, s, bm, outline, r, c + 1)(x, y) <==> (pass_set(ox, oy, s, bm, outline, r, c)(x, y)
            || (lit(bm, r, c) && cell_set(ox, oy, s, outline, r, c)(x, y))) by {
        if pass_set(ox, oy, s, bm, outline, r, c + 1)(x, y) {
            let (r2, c2) = choose|r2: int, c2: int|
                0 <= r2 < 7 && 0 <= c2 < 5 && (r2 < r || (r2 == r && c2 < c + 1)) && lit(bm, r2, c2)
                    && #[trigger] cell_set(ox, oy, s, outline, r2, c2)(x, y);
            if r2 < r || (r2 == r && c2 < c) {
                assert(pass_set(ox, oy, s, bm, outline, r, c)(x, y));
            }
        }
        if pass_set(ox, oy, s, bm, outline, r, c)(x, y) {
            let (r2, c2) = choose|r2: int, c2: int|
                0 <= r2 < 7 && 0 <= c2 < 5 && (r2 < r || (r2 == r && c2 < c)) && lit(bm, r2, c2)
                    && #[trigger] cell_set(ox, oy, s, outline, r2, c2)(x, y);
            assert(pass_set(ox, oy, s, bm, outline, r, c + 1)(x, y));
        }
        if lit(bm, r, c) && cell_set(ox, oy, s, outline, r, c)(x, y) {
            assert(pass_set(ox, oy, s, bm, outline, r, c + 1)(x, y));
        }
    }
}

/// The end of a row of cells is the start of the next.
proof fn lemma_pass_set_row(ox: int, oy: int, s: int, bm: Seq<u8>, outline: bool, r: int)
    requires
        0 <= r < 7,
    ensures
        forall|x: int, y: int|
            #[trigger] pass_set(ox, oy, s, bm, outline, r, 5)(x, y) <==> #[trigger] pass_set(ox, oy, s, bm, outline, r + 1, 0)(x, y),
{
    assert forall|x: int, y: int|
        #[trigger] pass_set(ox, oy, s, bm, outline, r, 5)(x, y) <==> #[trigger] pass_set(ox, oy, s, bm, outline, r + 1, 0)(x, y) by {
        if pass_set(ox, oy, s, bm, outline, r, 5)(x, y) {
            let (r2, c2) = choose|r2: int, c2: int|
                0 <= r2 < 7 && 0 <= c2 < 5 && (r2 < r || (r2 == r && c2 < 5)) && lit(bm, r2, c2)
                    && #[trigger] cell_set(ox, oy, s, outline, r2, c2)(x, y);
            assert(pass_set(ox, oy, s, bm, outline, r + 1, 0)(x, y));
        }
        if pass_set(ox, oy, s, bm, outline, r + 1, 0)(x, y) {
            let (r2, c2) = choose|r2: int, c2: int|
                0 <= r2 < 7 && 0 <= c2 < 5 && (r2 < r + 1 || (r2 == r + 1 && c2 < 0)) && lit(bm, r2, c2)
                    && #[trigger] cell_set(ox, oy, s, outline, r2, c2)(x, y);
            assert(pass_set(ox, oy, s, bm, outline, r, 5)(x, y));
        }
    }
}

/// One pass over the glyph's cells, painting each set cell's pixels with `v`:
/// the outline (`outline`) or the glyph.
fn glyph_pass(fb: &mut [u8], geo: Geometry, ox: u64, oy: u64, bm: [u8; 7], scale: u64, outline: bool, v: u32)
    requires
        geo.wf(),
        ox <= 0x4000_0000_0000,
        oy <= 0x4000_0000_0000,
        scale <= 0x1_0000_0000,
    ensures
        final(fb)@ == painted(
            old(fb)@,
            geo,
            pass_set(ox as int, oy as int, scale as int, bm@, outline, 7, 0),
            v,
        ),
{
    let ghost fb0 = fb@;
    let ghost (gox, goy, gs) = (ox as int, oy as int, scale as int);
    proof {
        lemma_painted_nothing(fb0, geo, pass_set(gox, goy, gs, bm@, outline, 0, 0), v);
    }
    let mut row: u64 = 0;
    while row < 7
        invariant
            geo.wf(),
            ox <= 0x4000_0000_0000,
            oy <= 0x4000_0000_0000,
            scale <= 0x1_0000_0000,
            gox == ox && goy == oy && gs == scale,
            row <= 7,
            fb@ == painted(fb0, geo, pass_set(gox, goy, gs, bm@, outline, row as int, 0), v),
        decreases 7 - row,
    {
        let mut col: u64 = 0;
        while col < 5
            invariant
                geo.wf(),
                ox <= 0x4000_0000_0000,
                oy <= 0x4000_0000_0000,
                scale <= 0x1_0000_0000,
                gox == ox && goy == oy && gs == scale,
                row < 7,
                col <= 5,
                fb@ == painted(fb0, geo, pass_set(gox, goy, gs, bm@, outline, row as int, col as int), v),
            decreases 5 - col,
        {
            let ghost done = pass_set(gox, goy, gs, bm@, outline, row as int, col as int);
            let ghost next = pass_set(gox, goy, gs, bm@, outline, row as int, col + 1);
            proof {
                lemma_pass_set_next(gox, goy, gs, bm@, outline, row as int, col as int);
            }
            if bm[row as usize] & (0x10u8 >> (col as u8)) != 0 {
                paint_cell(fb, geo, ox, oy, scale, outline, row, col, v);
                proof {
                    let cell = cell_set(gox, goy, gs, outline, row as int, col as int);
                    assert(lit(bm@, row as int, col as int));
                    lemma_painted_union(fb0, geo, done, cell, v);
                    lemma_painted_same(fb0, geo, either(done, cell), next, v);
                }
            } else {
                proof {
                    assert(!lit(bm@, row as int, col as int));
                    lemma_painted_same(fb0, geo, done, next, v);
                }
            }
            col = col + 1;
        }
        proof {
            lemma_pass_set_row(gox, goy, gs, bm@, outline, row as int);
            lemma_painted_same(
                fb0,
                geo,
                pass_set(gox, goy, gs, bm@, outline, row as int, 5),
                pass_set(gox, goy, gs, bm@, outline, row + 1, 0),
                v,
            );
        }
        row = row + 1;
    }
}

/// Draws a single glyph rotated -90° (CCW) at screen position `(ox, oy)`.
/// The rotated glyph is `7 * scale` wide and `5 * scale` tall. Two passes:
/// black outline first, `white` fill second — readable on any background.
pub fn draw_glyph_rot90ccw(fb: &mut [u8], geo: Geometry, ox: u64, oy: u64, bm: [u8; 7], scale: u64, white: u32)
    requires
        geo.wf(),
        ox <= 0x4000_0000_0000,
        oy <= 0x4000_0000_0000,
        scale <= 0x1_0000_0000,
    ensures
        final(fb)@ == glyph_effect(old(fb)@, geo, ox as int, oy as int, scale as int, bm@, white),
{
    glyph_pass(fb, geo, ox, oy, bm, scale, true, 0);
    glyph_pass(fb, geo, ox, oy, bm, scale, false, white);
}

/// A set cell `(row, col)` of a glyph drawn at `(ox, oy)` with scale `s` ends
/// up as the white `s` x `s` block whose top-left corner is
/// `(ox + row * s, oy + (4 - col) * s)`: rotated -90°, the glyph's top row is
/// at the left and its leftmost column at the bottom.
pub proof fn law_glyph_cell_block(
    fb: Seq<u8>,
    geo: Geometry,
    ox: int,
    oy: int,
    s: int,
    bm: Seq<u8>,
    white: u32,
    row: int,
    col: int,
    i: int,
    j: int,
    k: int,
)
    requires
        geo.wf(),
        0 <= row < 7,
        0 <= col < 5,
        bm[row] & (0x10u8 >> (col as u8)) != 0,
        0 <= i < s,
        0 <= j < s,
        geo.on_screen(ox + row * s + i, oy + (4 - col) * s + j),
        geo.offset(ox + row * s + i, oy + (4 - col) * s + j) + geo.bytes_pp <= fb.len(),
        0 <= k < geo.bytes_pp,
    ensures
        glyph_effect(fb, geo, ox, oy, s, bm, white)[geo.offset(ox + row * s + i, oy + (4 - col) * s + j) + k]
            == le_byte(white, k),
{
    let x = ox + row * s + i;
    let y = oy + (4 - col) * s + j;
    let p = geo.offset(x, y) + k;
    let fill = pass_set(ox, oy, s, bm, false, 7, 0);
    let mid = painted(fb, geo, pass_set(ox, oy, s, bm, true, 7, 0), 0u32);
    assert(cell_set(ox, oy, s, false, row, col)(x, y));
    assert(fill(x, y));
    assert(covers(geo, fill, mid.len() as int, p, x, y));
    lemma_painted_at(mid, geo, fill, white, p, x, y);
}

/// A glyph placed below the screen's last row draws nothing.
proof fn lemma_glyph_below_screen(fb: Seq<u8>, geo: Geometry, ox: int, oy: int, s: int, bm: Seq<u8>, white: u32)
    requires
        oy > geo.height,
        s >= 0,
    ensures
        glyph_effect(fb, geo, ox, oy, s, bm, white) == fb,
{
    assert forall|outline: bool, x: int, y: int| geo.on_screen(x, y) implies !#[trigger] pass_set(ox, oy, s, bm, outline, 7, 0)(x, y) by {
        if pass_set(ox, oy, s, bm, outline, 7, 0)(x, y) {
            let (r2, c2) = choose|r2: int, c2: int|
                0 <= r2 < 7 && 0 <= c2 < 5 && (r2 < 7 || (r2 == 7 && c2 < 0)) && lit(bm, r2, c2)
                    && #[trigger] cell_set(ox, oy, s, outline, r2, c2)(x, y);
            assert((4 - c2) * s >= 0) by (nonlinear_arith)
                requires
                    c2 < 5,
                    s >= 0,
            ;
        }
    }
    lemma_painted_nothing(fb, geo, pass_set(ox, oy, s, bm, true, 7, 0), 0u32);
    lemma_painted_nothing(fb, geo, pass_set(ox, oy, s, bm, false, 7, 0), white);
}

// ── Text ────────────────────────────────────────────────────────────────────

/// `fb` after drawing the first `k` characters of `text` rotated -90°,
/// stacked bottom-to-top: character `i` of `n` has its top-left corner at
/// `(ox, oy + (n - 1 - i) * (5 * scale + 1))`; characters without a glyph
/// draw nothing but keep their slot.
pub open spec fn text_effect(
    fb: Seq<u8>,
    geo: Geometry,
    ox: int,
    oy: int,
    text: Seq<char>,
    scale: int,
    white: u32,
    k: int,
) -> Seq<u8>
    decreases k,
{
    if k <= 0 {
        fb
    } else {
        let prev = text_effect(fb, geo, ox, oy, text, scale, white, k - 1);
        let i = k - 1;
        match glyph_rows(text[i]) {
            Some(bm) => glyph_effect(prev, geo, ox, oy + (text.len() - 1 - i) * (5 * scale + 1), scale, bm, white),
            None => prev,
        }
    }
}

/// The characters of `text`.
pub fn chars_of(text: &str) -> (v: Vec<char>)
    ensures
        v@ == text@,
{
    let mut v: Vec<char> = Vec::new();
    for c in it: text.chars()
        invariant
            v@ == it.seq().take(it.index()),
    {
        v.push(c);
    }
    v
}

/// Draws a string rotated -90°, characters stacked bottom-to-top, anchored at
/// `(ox, oy)` top-left: the first character is the lowest.
pub fn draw_text_rot90ccw(fb: &mut [u8], geo: Geometry, ox: u64, oy: u64, text: &str, scale: u64, white: u32)
    requires
        geo.wf(),
        ox <= 0x4000_0000_0000,
        oy <= 0x1_0000_0000,
        scale <= 0x400_0000,
    ensures
        final(fb)@ == text_effect(old(fb)@, geo, ox as int, oy as int, text@, scale as int, white, text@.len() as int),
{
    let ghost fb0 = fb@;
    // Rotated char height + 1px gap.
    let char_h: u128 = 5 * scale as u128 + 1;
    let chars = chars_of(text);
    let n: usize = chars.len();
    let mut i: usize = 0;
    while i < n
        invariant
            geo.wf(),
            ox <= 0x4000_0000_0000,
            oy <= 0x1_0000_0000,
            scale <= 0x400_0000,
            char_h == 5 * scale + 1,
            chars@ == text@,
            n == chars@.len(),
            i <= n,
            fb@ == text_effect(fb0, geo, ox as int, oy as int, text@, scale as int, white, i as int),
        decreases n - i,
    {
        match char_bitmap(chars[i]) {
            Some(bm) => {
                assert((n - 1 - i) * char_h <= 0x1_0000_0000_0000_0000 * (5 * 0x400_0000 + 1)) by (nonlinear_arith)
                    requires
                        n - 1 - i <= 0x1_0000_0000_0000_0000,
                        0 <= n - 1 - i,
                        char_h <= 5 * 0x400_0000 + 1,
                ;
                // Reads bottom-to-top: the first char is at the bottom (largest y).
                let cy: u128 = oy as u128 + ((n - 1 - i) as u128) * char_h;
                if cy <= geo.height as u128 {
                    draw_glyph_rot90ccw(fb, geo, ox, cy as u64, bm, scale, white);
                } else {
                    proof {
                        lemma_glyph_below_screen(fb@, geo, ox as int, cy as int, scale as int, bm@, white);
                    }
                }
            },
            None => {},
        }
        i = i + 1;
    }
}

} // verus!
