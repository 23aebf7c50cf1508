use colors_transform::Color as ColorOps;
use palette_kmeans::color::{samples_from_pixels, Color, Rgb8, FULL};
use palette_kmeans::palette::{hue_less, hue_of, hue_order, order_palette};
use palette_kmeans::swatch::{render_swatch, swatch_row};

fn rgb(r: u8, g: u8, b: u8) -> Rgb8 {
    Rgb8 { r, g, b }
}

fn degrees(p: Rgb8) -> f64 {
    let (n, d) = hue_of(p);
    60.0 * n as f64 / d as f64
}

#[test]
fn pixel_conversion_round_trips() {
    let c = Color::from_rgb8(rgb(255, 0, 128));
    assert_eq!(c, Color::new(FULL, 0, 32768));
    assert_eq!(c.to_rgb8(), rgb(255, 0, 128));
    assert_eq!(Color::new(511, 65279, 255).to_rgb8(), rgb(1, 254, 0));
    let s = samples_from_pixels(&vec![rgb(1, 2, 3), rgb(255, 255, 255)]);
    assert_eq!(s, vec![Color::new(256, 512, 768), Color::new(FULL, FULL, FULL)]);
}

#[test]
fn hue_of_primary_and_gray_colors() {
    assert_eq!(degrees(rgb(255, 0, 0)), 0.0);
    assert_eq!(degrees(rgb(0, 255, 0)), 120.0);
    assert_eq!(degrees(rgb(0, 0, 255)), 240.0);
    assert_eq!(degrees(rgb(255, 0, 255)), 300.0);
    assert_eq!(degrees(rgb(255, 255, 0)), 60.0);
    assert_eq!(degrees(rgb(90, 90, 90)), 0.0);
    assert_eq!(hue_of(rgb(200, 100, 150)), (550, 100));
}

#[test]
fn hue_agrees_with_colors_transform() {
    let mut v = Vec::new();
    for r in (0..=255u32).step_by(51) {
        for g in (0..=255u32).step_by(85) {
            for b in (0..=255u32).step_by(17) {
                v.push(rgb(r as u8, g as u8, b as u8));
            }
        }
    }
    for p in &v {
        let h = colors_transform::Rgb::from(p.r as f32, p.g as f32, p.b as f32).get_hue() as f64;
        assert!((h - degrees(*p)).abs() < 0.01, "{:?}: {} vs {}", p, h, degrees(*p));
    }
    for a in v.iter().take(40) {
        for b in v.iter().skip(40).take(40) {
            assert_eq!(hue_less(*a, *b), degrees(*a) < degrees(*b));
            assert_eq!(hue_less(*b, *a), degrees(*b) < degrees(*a));
        }
    }
}

#[test]
fn hue_order_is_stable_sort() {
    let colors = vec![rgb(0, 0, 255), rgb(10, 10, 10), rgb(255, 0, 0), rgb(0, 255, 0), rgb(200, 200, 200), rgb(128, 0, 0)];
    assert_eq!(hue_order(&colors), vec![1, 2, 4, 5, 3, 0]);
    assert_eq!(hue_order(&vec![]), Vec::<usize>::new());
}

#[test]
fn palette_hue_is_non_decreasing() {
    let cs = vec![
        Color::new(0, 0, FULL),
        Color::new(FULL, FULL, 0),
        Color::new(FULL, 0, 0),
        Color::new(0, FULL, FULL),
        Color::new(FULL, 0, 40000),
    ];
    let p = order_palette(&cs);
    assert_eq!(p, vec![rgb(255, 0, 0), rgb(255, 255, 0), rgb(0, 255, 255), rgb(0, 0, 255), rgb(255, 0, 156)]);
    for w in p.windows(2) {
        assert!(degrees(w[0]) <= degrees(w[1]));
    }
}

#[test]
fn swatch_row_has_one_opaque_pixel_per_entry() {
    let row = swatch_row(&vec![rgb(1, 2, 3), rgb(4, 5, 6)]);
    assert_eq!(row, vec![1, 2, 3, 255, 4, 5, 6, 255]);
}

#[test]
fn swatch_is_blocks_of_each_color() {
    let pal = vec![rgb(255, 0, 0), rgb(0, 0, 255), rgb(7, 8, 9)];
    let px = render_swatch(&pal);
    let width = 300usize;
    assert_eq!(px.len(), 4 * width * 100);
    for y in 0..100usize {
        for x in 0..width {
            let i = 4 * (y * width + x);
            let p = pal[x / 100];
            assert_eq!(&px[i..i + 4], &[p.r, p.g, p.b, 255]);
        }
    }
}
