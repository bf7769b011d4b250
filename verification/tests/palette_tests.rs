use flirpi::palette::iron;

/// The control points and the floating-point interpolation that the palette
/// is defined by.
const CP: [(u8, u8, u8, u8); 7] = [
    (0, 0, 0, 0),
    (42, 30, 0, 200),
    (85, 120, 0, 160),
    (128, 220, 0, 50),
    (170, 255, 100, 0),
    (213, 255, 220, 0),
    (255, 255, 255, 255),
];

fn lerp_f32(a: u8, b: u8, t: f32) -> u8 {
    (a as f32 + (b as f32 - a as f32) * t + 0.5) as u8
}

fn iron_f32() -> [[u8; 3]; 256] {
    let mut p = [[0u8; 3]; 256];
    let mut seg = 0usize;
    for i in 0u8..=255 {
        while seg + 2 < CP.len() && i >= CP[seg + 1].0 {
            seg += 1;
        }
        let (i0, r0, g0, b0) = CP[seg];
        let (i1, r1, g1, b1) = CP[seg + 1];
        let t = (i - i0) as f32 / (i1 - i0) as f32;
        p[i as usize] = [lerp_f32(r0, r1, t), lerp_f32(g0, g1, t), lerp_f32(b0, b1, t)];
    }
    p
}

#[test]
fn iron_matches_float_interpolation() {
    let p = iron();
    let q = iron_f32();
    for i in 0..256 {
        assert_eq!(p[i], q[i], "entry {}", i);
    }
}

#[test]
fn iron_runs_black_to_white() {
    let p = iron();
    assert_eq!(p[0], [0, 0, 0]);
    assert_eq!(p[255], [255, 255, 255]);
}

#[test]
fn iron_hits_control_points() {
    let p = iron();
    for (i, r, g, b) in CP {
        assert_eq!(p[i as usize], [r, g, b]);
    }
}

#[test]
fn iron_interpolates_with_rounding() {
    let p = iron();
    // halfway between (0,0,0) and (30,0,200): index 21 of 42
    assert_eq!(p[21], [15, 0, 100]);
    // index 1: 30/42 = 0.714 -> 1, 200/42 = 4.76 -> 5
    assert_eq!(p[1], [1, 0, 5]);
    // index 86 in segment 85..128: 120 + 100/43 = 122.3 -> 122, 160 - 110/43 = 157.4 -> 157
    assert_eq!(p[86], [122, 0, 157]);
}
