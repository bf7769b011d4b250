use flirpi::display::{encode565, pack, scale_nearest, FbBitfield, Framebuffer, ScreenInfo};
use flirpi::font::char_bitmap;
use flirpi::frame::ThermalFrame;
use flirpi::palette::iron;

fn screen(xres: u32, yres: u32, bpp: u32, line_length: u32) -> Framebuffer {
    Framebuffer {
        vinfo: ScreenInfo {
            xres,
            yres,
            bits_per_pixel: bpp,
            red: FbBitfield { offset: 11, length: 5 },
            green: FbBitfield { offset: 5, length: 6 },
            blue: FbBitfield { offset: 0, length: 5 },
        },
        line_length,
    }
}

fn pixel(mem: &[u8], fb: &Framebuffer, x: usize, y: usize) -> u32 {
    let bpp = (fb.vinfo.bits_per_pixel / 8) as usize;
    let o = y * fb.line_length as usize + x * bpp;
    let mut v = 0u32;
    for k in 0..bpp {
        v |= (mem[o + k] as u32) << (8 * k);
    }
    v
}

fn thermal(f: impl Fn(usize) -> u8) -> ThermalFrame {
    let mut gray = [0u8; 19200];
    for (i, g) in gray.iter_mut().enumerate() {
        *g = f(i);
    }
    ThermalFrame { gray, center_raw: 0 }
}

fn rgb565(p: [u8; 3]) -> u32 {
    encode565(p[0], p[1], p[2]) as u32
}

#[test]
fn encode565_packs_top_bits() {
    assert_eq!(encode565(0, 0, 0), 0);
    assert_eq!(encode565(255, 255, 255), 0xFFFF);
    assert_eq!(encode565(255, 0, 0), 0xF800);
    assert_eq!(encode565(0, 255, 0), 0x07E0);
    assert_eq!(encode565(0, 0, 255), 0x001F);
    assert_eq!(encode565(0x12, 0x34, 0x56), (0x02 << 11) | (0x0D << 5) | 0x0A);
}

#[test]
fn char_bitmap_covers_label_characters() {
    for c in "0123456789.-C".chars() {
        assert!(char_bitmap(c).is_some(), "{}", c);
    }
    assert_eq!(char_bitmap('1'), Some([0b00100, 0b01100, 0b00100, 0b00100, 0b00100, 0b00100, 0b01110]));
    assert_eq!(char_bitmap('-'), Some([0, 0, 0, 0b11111, 0, 0, 0]));
    assert_eq!(char_bitmap('x'), None);
    assert_eq!(char_bitmap(' '), None);
}

#[test]
fn getters_report_screen_info() {
    let fb = screen(320, 240, 16, 640);
    assert_eq!(fb.width(), 320);
    assert_eq!(fb.height(), 240);
    assert_eq!(fb.bpp(), 16);
    assert_eq!(fb.map_size(), 240 * 640);
}

#[test]
fn pixel_format_string() {
    let fb = screen(320, 240, 16, 640);
    assert_eq!(fb.pixel_format_str(), "R[off=11 len=5] G[off=5 len=6] B[off=0 len=5]");
    let mut fb2 = screen(1, 1, 32, 4);
    fb2.vinfo.red = FbBitfield { offset: 16, length: 8 };
    fb2.vinfo.green = FbBitfield { offset: 8, length: 8 };
    fb2.vinfo.blue = FbBitfield { offset: 0, length: 8 };
    assert_eq!(fb2.pixel_format_str(), "R[off=16 len=8] G[off=8 len=8] B[off=0 len=8]");
}

#[test]
fn draw_thermal_colours_the_picture() {
    let fb = screen(320, 240, 16, 640);
    let palette = iron();
    let mut mem = vec![0x55u8; fb.map_size()];
    let frame = thermal(|i| (i % 256) as u8);
    fb.draw_thermal(&mut mem, &frame, &palette, "");
    // a corner pixel, away from the overlays; the image is scaled by 2
    let g = frame.gray[0] as usize;
    assert_eq!(pixel(&mem, &fb, 0, 0), rgb565(palette[g]));
    let g = frame.gray[160 * 5 + 150] as usize;
    assert_eq!(pixel(&mem, &fb, 300, 10), rgb565(palette[g]));
}

#[test]
fn draw_thermal_keeps_line_padding() {
    // 10 pixels per row, 24 bytes per line: 4 bytes of padding
    let fb = screen(10, 4, 16, 24);
    let palette = iron();
    let mut mem = vec![0x55u8; fb.map_size()];
    fb.draw_thermal(&mut mem, &thermal(|_| 0), &palette, "");
    for y in 0..4 {
        assert_eq!(&mem[y * 24 + 20..y * 24 + 24], &[0x55; 4]);
    }
}

#[test]
fn draw_thermal_draws_the_crosshair() {
    let fb = screen(320, 240, 16, 640);
    let palette = iron();
    let mut mem = vec![0u8; fb.map_size()];
    fb.draw_thermal(&mut mem, &thermal(|_| 0), &palette, "");
    let (cx, cy) = (160, 120);
    // arms
    assert_eq!(pixel(&mem, &fb, cx - 19, cy), 0xFFFF);
    assert_eq!(pixel(&mem, &fb, cx - 6, cy), 0xFFFF);
    assert_eq!(pixel(&mem, &fb, cx + 6, cy), 0xFFFF);
    assert_eq!(pixel(&mem, &fb, cx + 19, cy), 0xFFFF);
    assert_eq!(pixel(&mem, &fb, cx, cy - 19), 0xFFFF);
    assert_eq!(pixel(&mem, &fb, cx, cy + 19), 0xFFFF);
    // gap and beyond the arms: palette entry 0 is black
    assert_eq!(pixel(&mem, &fb, cx, cy), 0);
    assert_eq!(pixel(&mem, &fb, cx - 5, cy), 0);
    assert_eq!(pixel(&mem, &fb, cx + 5, cy), 0);
    assert_eq!(pixel(&mem, &fb, cx - 20, cy), 0);
    assert_eq!(pixel(&mem, &fb, cx + 20, cy), 0);
    assert_eq!(pixel(&mem, &fb, cx, cy - 20), 0);
}

fn xrgb8888() -> Framebuffer {
    let mut fb = screen(100, 80, 32, 400);
    fb.vinfo.red = FbBitfield { offset: 16, length: 8 };
    fb.vinfo.green = FbBitfield { offset: 8, length: 8 };
    fb.vinfo.blue = FbBitfield { offset: 0, length: 8 };
    fb
}

#[test]
fn pack_follows_the_channel_layout() {
    let rgb = FbBitfield { offset: 11, length: 5 };
    let g6 = FbBitfield { offset: 5, length: 6 };
    let b5 = FbBitfield { offset: 0, length: 5 };
    assert_eq!(pack(rgb, g6, b5, 255, 0, 0), 0xF800);
    // BGR565: red in the low bits
    let r_low = FbBitfield { offset: 0, length: 5 };
    let b_high = FbBitfield { offset: 11, length: 5 };
    assert_eq!(pack(r_low, g6, b_high, 255, 0, 0), 0x001F);
    assert_eq!(pack(r_low, g6, b_high, 0, 0, 255), 0xF800);
    // XRGB8888
    let r8 = FbBitfield { offset: 16, length: 8 };
    let g8 = FbBitfield { offset: 8, length: 8 };
    let b8 = FbBitfield { offset: 0, length: 8 };
    assert_eq!(pack(r8, g8, b8, 0x12, 0x34, 0x56), 0x0012_3456);
    // a 10-bit channel is scaled up
    let r10 = FbBitfield { offset: 20, length: 10 };
    assert_eq!(pack(r10, g8, b8, 0xFF, 0, 0), 0x3FC << 20);
    for (r, g, b) in [(1u8, 2u8, 3u8), (200, 100, 50), (255, 255, 255)] {
        assert_eq!(pack(rgb, g6, b5, r, g, b), encode565(r, g, b) as u32);
    }
}

#[test]
fn draw_thermal_on_bgr565() {
    let mut fb = screen(1, 1, 16, 2);
    fb.vinfo.red = FbBitfield { offset: 0, length: 5 };
    fb.vinfo.blue = FbBitfield { offset: 11, length: 5 };
    let mut palette = [[0u8; 3]; 256];
    palette[7] = [255, 0, 0];
    let mut mem = vec![0u8; 2];
    fb.draw_thermal(&mut mem, &thermal(|_| 7), &palette, "");
    // pure red, red in the low five bits
    assert_eq!(mem, vec![0x1F, 0x00]);
}

#[test]
fn draw_thermal_on_xrgb8888() {
    let fb = xrgb8888();
    let palette = iron();
    let mut mem = vec![0x11u8; fb.map_size()];
    let frame = thermal(|i| (i % 256) as u8);
    fb.draw_thermal(&mut mem, &frame, &palette, "");
    // (2, 3) takes source pixel (4, 5): (2 * 2 + 1) * 160 / 200 = 4, (2 * 3 + 1) * 120 / 160 = 5
    let g = frame.gray[160 * 5 + 4] as usize;
    let p = palette[g];
    assert_eq!(pixel(&mem, &fb, 2, 3), ((p[0] as u32) << 16) | ((p[1] as u32) << 8) | p[2] as u32);
    let o = 3 * 400 + 2 * 4;
    assert_eq!(&mem[o..o + 4], &[p[2], p[1], p[0], 0]);
    // the crosshair is white in this format
    assert_eq!(pixel(&mem, &fb, 50 - 19, 40), 0x00FF_FFFF);
    assert_eq!(pixel(&mem, &fb, 50, 40 + 6), 0x00FF_FFFF);
}

#[test]
fn draw_thermal_leaves_undrawable_depths_alone() {
    // 1 bit per pixel: nothing is drawn
    let fb = screen(16, 8, 1, 2);
    let palette = iron();
    let mut mem = vec![0x5Au8; fb.map_size()];
    fb.draw_thermal(&mut mem, &thermal(|_| 0), &palette, "1");
    assert_eq!(mem, vec![0x5Au8; 16]);
}

#[test]
fn draw_thermal_writes_the_label() {
    // 240 rows: scale 2, label "1C" is 2 chars of 5*2+1 = 11 px each
    let fb = screen(320, 240, 16, 640);
    let palette = iron();
    let mut mem = vec![0u8; fb.map_size()];
    fb.draw_thermal(&mut mem, &thermal(|_| 128), &palette, "1C");
    let bg = rgb565(palette[128]);
    let scale = 2;
    let tx = 160 + 8;
    let ty = 120 - 22 / 2;
    // '1' is the first char, drawn at the bottom: oy = ty + 11
    let oy = ty + 11;
    // row 0 of '1' is 0b00100: column 2 is lit -> block at (tx + 0, oy + (4-2)*2)
    assert_eq!(pixel(&mem, &fb, tx, oy + 4), 0xFFFF);
    assert_eq!(pixel(&mem, &fb, tx + 1, oy + 5), 0xFFFF);
    // the pixel left of it is outline black
    assert_eq!(pixel(&mem, &fb, tx - 1, oy + 4), 0);
    // far from the label the picture is untouched
    assert_eq!(pixel(&mem, &fb, 10, 10), bg);
    // 'C' at the top: row 0 is 0b01110, column 1 lit -> (tx, ty + 3*2)
    assert_eq!(pixel(&mem, &fb, tx, ty + 6), 0xFFFF);
    let _ = scale;
}

#[test]
fn draw_thermal_skips_unknown_characters() {
    let fb = screen(320, 240, 16, 640);
    let palette = iron();
    let frame = thermal(|_| 128);
    let mut a = vec![0u8; fb.map_size()];
    let mut b = vec![0u8; fb.map_size()];
    fb.draw_thermal(&mut a, &frame, &palette, "1x");
    fb.draw_thermal(&mut b, &frame, &palette, "1 ");
    assert_eq!(a, b);
}

#[test]
fn scale_nearest_identity_at_native_size() {
    let frame = thermal(|i| (i * 7 % 251) as u8);
    let out = scale_nearest(&frame.gray, 160, 120);
    assert_eq!(out[..], frame.gray[..]);
}

#[test]
fn scale_nearest_doubles() {
    let frame = thermal(|i| (i % 256) as u8);
    let out = scale_nearest(&frame.gray, 320, 240);
    assert_eq!(out.len(), 320 * 240);
    for (x, y) in [(0, 0), (1, 0), (2, 1), (319, 239), (137, 91)] {
        assert_eq!(out[y * 320 + x], frame.gray[160 * (y / 2) + x / 2]);
    }
}

#[test]
fn scale_nearest_one_pixel_takes_the_centre() {
    let frame = thermal(|i| if i == 160 * 60 + 80 { 9 } else { 0 });
    assert_eq!(scale_nearest(&frame.gray, 1, 1), vec![9]);
}

#[test]
fn scale_nearest_shrinks_by_sampling_centres() {
    // 160 -> 3 columns: centres map to (2x+1)*160/6 = 26, 80, 133
    let frame = thermal(|i| (i % 160) as u8);
    let out = scale_nearest(&frame.gray, 3, 1);
    assert_eq!(out, vec![26, 80, 133]);
}
