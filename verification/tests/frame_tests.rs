use flirpi::frame::{extract_thermal, u32_le, FrameAccumulator, FRAME_MIN_LEN, THERMAL_H, THERMAL_W};

const MAGIC: [u8; 4] = [0xEF, 0xBE, 0x00, 0x00];
const THERMAL_SIZE: usize = 39360;
const STATUS_SIZE: usize = 32;

fn put_u32(buf: &mut [u8], off: usize, v: u32) {
    buf[off..off + 4].copy_from_slice(&v.to_le_bytes());
}

fn pixel_offset(x: usize, y: usize) -> usize {
    if x < 80 {
        32 + 2 * (y * 164 + x)
    } else {
        36 + 2 * (y * 164 + x)
    }
}

/// A complete frame whose pixel (x, y) reads `pix(x, y)`; `ffc` puts the FFC
/// marker into the status block.
fn make_frame(pix: impl Fn(usize, usize) -> u16, ffc: bool) -> Vec<u8> {
    let frame_size = THERMAL_SIZE + STATUS_SIZE;
    let mut f = vec![0u8; 28 + frame_size];
    f[..4].copy_from_slice(&MAGIC);
    put_u32(&mut f, 8, frame_size as u32);
    put_u32(&mut f, 12, THERMAL_SIZE as u32);
    put_u32(&mut f, 16, 0);
    put_u32(&mut f, 20, STATUS_SIZE as u32);
    for y in 0..THERMAL_H {
        for x in 0..THERMAL_W {
            let o = pixel_offset(x, y);
            f[o..o + 2].copy_from_slice(&pix(x, y).to_le_bytes());
        }
    }
    if ffc {
        let o = 28 + THERMAL_SIZE + 17;
        f[o..o + 3].copy_from_slice(b"FFC");
    }
    f
}

fn gradient(x: usize, y: usize) -> u16 {
    (1000 + x + 200 * y) as u16
}

#[test]
fn u32_le_reads_little_endian() {
    let buf = [0u8, 1, 0x78, 0x56, 0x34, 0x12, 9];
    assert_eq!(u32_le(&buf, 2), 0x1234_5678);
}

#[test]
fn extract_normalises_min_max() {
    let f = make_frame(gradient, false);
    let t = extract_thermal(&f);
    // range 1000..=24959: the coldest pixel is 0, the warmest 255
    assert_eq!(t.gray[0], 0);
    assert_eq!(t.gray[THERMAL_W * THERMAL_H - 1], 255);
    // 12080 * 256 / 23959 = 129.07 -> 129
    assert_eq!(t.gray[60 * THERMAL_W + 80], 129);
    // 93 * 256 / 23959 = 0.99, 94 * 256 / 23959 = 1.004
    assert_eq!(t.gray[93], 0);
    assert_eq!(t.gray[94], 1);
    assert_eq!(t.center_raw, 13080);
    for i in 1..THERMAL_W * THERMAL_H {
        assert!(t.gray[i - 1] <= t.gray[i]);
    }
}

#[test]
fn extract_matches_fixed_point_on_a_power_of_two_range() {
    // range 256: 65536 / 256 is exact, a pixel 200 above the minimum is 200
    let f = make_frame(|x, y| if (x, y) == (0, 0) { 1256 } else if (x, y) == (1, 0) { 1200 } else { 1000 }, false);
    let t = extract_thermal(&f);
    assert_eq!(t.gray[0], 255);
    assert_eq!(t.gray[1], 200);
    assert_eq!(t.gray[2], 0);
}

#[test]
fn extract_uniform_frame_is_black() {
    let f = make_frame(|_, _| 3000, false);
    let t = extract_thermal(&f);
    assert!(t.gray.iter().all(|&g| g == 0));
    assert_eq!(t.center_raw, 3000);
}

#[test]
fn extract_two_levels_are_black_and_white() {
    // Two levels 0 and 1: the warmer one is white.
    let f = make_frame(|x, _| if x == 5 { 1 } else { 0 }, false);
    let t = extract_thermal(&f);
    assert_eq!(t.gray[5], 255);
    assert_eq!(t.gray[4], 0);
}

#[test]
fn extract_reads_the_gap_layout() {
    // Pixels 79 and 80 of row 0 sit at byte 190 and byte 196.
    let mut f = make_frame(|_, _| 0, false);
    f[190] = 0x10;
    f[196] = 0x20;
    let t = extract_thermal(&f);
    // 16 * 256 / 32 = 128
    assert_eq!(t.gray[79], 128);
    assert_eq!(t.gray[80], 255);
}

#[test]
fn whole_frame_in_one_chunk() {
    let mut acc = FrameAccumulator::new();
    let f = make_frame(gradient, false);
    assert!(!acc.completes_short_frame(&f));
    let t = acc.push_chunk(&f).expect("frame");
    assert_eq!(t.gray[0], 0);
    assert_eq!(t.center_raw, 13080);
}

#[test]
fn frame_split_over_chunks() {
    let mut acc = FrameAccumulator::new();
    let f = make_frame(gradient, false);
    let chunks: Vec<&[u8]> = f.chunks(16384).collect();
    assert!(chunks.len() > 1);
    for c in &chunks[..chunks.len() - 1] {
        assert!(acc.push_chunk(c).is_none());
    }
    let t = acc.push_chunk(chunks[chunks.len() - 1]).expect("frame");
    let whole = extract_thermal(&f);
    assert_eq!(t.gray[..], whole.gray[..]);
    assert_eq!(t.center_raw, whole.center_raw);
}

#[test]
fn header_split_in_tiny_chunks() {
    let mut acc = FrameAccumulator::new();
    let f = make_frame(gradient, false);
    // 4 + 10 + 20 bytes, then the rest
    assert!(acc.push_chunk(&f[..4]).is_none());
    assert!(acc.push_chunk(&f[4..14]).is_none());
    assert!(acc.push_chunk(&f[14..34]).is_none());
    assert!(acc.push_chunk(&f[34..]).is_some());
}

#[test]
fn empty_chunk_is_ignored() {
    let mut acc = FrameAccumulator::new();
    let f = make_frame(gradient, false);
    assert!(acc.push_chunk(&f[..100]).is_none());
    assert!(acc.push_chunk(&[]).is_none());
    assert!(acc.push_chunk(&f[100..]).is_some());
}

#[test]
fn garbage_without_magic_is_dropped() {
    let mut acc = FrameAccumulator::new();
    assert!(acc.push_chunk(&[1, 2, 3, 4, 5, 6]).is_none());
    // the garbage was not kept: a frame after it still comes out
    let f = make_frame(gradient, false);
    assert!(acc.push_chunk(&f).is_some());
}

#[test]
fn magic_chunk_restarts_a_frame() {
    let mut acc = FrameAccumulator::new();
    let f = make_frame(gradient, false);
    assert!(acc.push_chunk(&f[..1000]).is_none());
    // a new frame starts before the first completed
    assert!(acc.push_chunk(&f[..1000]).is_none());
    assert!(acc.push_chunk(&f[1000..]).is_some());
}

#[test]
fn ffc_frame_and_next_are_dropped() {
    let mut acc = FrameAccumulator::new();
    let ffc = make_frame(gradient, true);
    let plain = make_frame(gradient, false);
    assert!(acc.push_chunk(&ffc).is_none());
    assert!(acc.push_chunk(&plain).is_none());
    assert!(acc.push_chunk(&plain).is_some());
    assert!(acc.push_chunk(&plain).is_some());
}

#[test]
fn two_ffc_frames_in_a_row() {
    let mut acc = FrameAccumulator::new();
    let ffc = make_frame(gradient, true);
    let plain = make_frame(gradient, false);
    assert!(acc.push_chunk(&ffc).is_none());
    assert!(acc.push_chunk(&ffc).is_none());
    assert!(acc.push_chunk(&plain).is_none());
    assert!(acc.push_chunk(&plain).is_some());
}

#[test]
fn oversized_chunk_is_ignored() {
    let mut acc = FrameAccumulator::new();
    let big = vec![0u8; 1 << 20];
    assert!(acc.push_chunk(&big).is_none());
    let f = make_frame(gradient, false);
    assert!(acc.push_chunk(&f).is_some());
}

#[test]
fn short_frame_is_detected() {
    let acc = FrameAccumulator::new();
    let mut f = vec![0u8; 100];
    f[..4].copy_from_slice(&MAGIC);
    put_u32(&mut f, 8, 72);
    assert!(acc.completes_short_frame(&f));
    assert!(FRAME_MIN_LEN > 100);
    // an FFC frame of that size is dropped, not extracted
    let o = 28 + 17;
    f[o..o + 3].copy_from_slice(b"FFC");
    assert!(!acc.completes_short_frame(&f));
}

#[test]
fn frame_header_waits_for_all_bytes() {
    let mut acc = FrameAccumulator::new();
    let f = make_frame(gradient, false);
    assert!(acc.push_chunk(&f[..f.len() - 1]).is_none());
    assert!(acc.push_chunk(&f[f.len() - 1..]).is_some());
}
