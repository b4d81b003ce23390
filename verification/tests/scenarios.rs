use uv_margin::colour::Rgba;
use uv_margin::pipeline::{analyze_uv, Analysis, Config};
use uv_margin::raster::Raster;

const OPAQUE: Rgba = Rgba { r: 200, g: 100, b: 50, a: 255 };
const CLEAR: Rgba = Rgba { r: 0, g: 0, b: 0, a: 0 };
const VIOLET: Rgba = Rgba { r: 128, g: 0, b: 128, a: 255 };
const RED: Rgba = Rgba { r: 255, g: 0, b: 0, a: 255 };
const CYAN: Rgba = Rgba { r: 0, g: 255, b: 255, a: 255 };
const GREEN: Rgba = Rgba { r: 0, g: 255, b: 0, a: 255 };

fn canvas(width: u32, height: u32) -> Raster<Rgba> {
    Raster::filled(width, height, CLEAR)
}

fn paint(src: &mut Raster<Rgba>, x0: u32, y0: u32, x1: u32, y1: u32) {
    for y in y0..=y1 {
        for x in x0..=x1 {
            src.set(x, y, OPAQUE);
        }
    }
}

fn run(src: &Raster<Rgba>) -> Analysis {
    analyze_uv(src, &Config::default())
}

fn count_colour(a: &Analysis, colour: Rgba) -> usize {
    a.output.cells.iter().filter(|c| **c == colour).count()
}

fn within(x: u32, y: u32, x0: u32, y0: u32, x1: u32, y1: u32) -> bool {
    x0 <= x && x <= x1 && y0 <= y && y <= y1
}

#[test]
fn fully_transparent_input_gives_empty_analysis() {
    let src = canvas(40, 30);
    let a = run(&src);
    assert_eq!(a.regions.len(), 0);
    assert_eq!(a.statuses.len(), 0);
    assert_eq!(a.report.total_labels, 0);
    assert!(a.report.entries.is_empty());
    assert_eq!(a.report.flagged(), 0);
    assert_eq!(a.output.width, 40);
    assert_eq!(a.output.height, 30);
    assert_eq!(a.output.cells.len(), 1200);
    assert!(a.output.cells.iter().all(|c| *c == CLEAR));
    assert!(a.labels.cells.iter().all(|l| *l == 0));
    assert!(a.margin.cells.iter().all(|m| *m == 0));
    assert!(a.conflict.cells.iter().all(|m| *m == 0));
}

#[test]
fn single_centred_square_has_one_clean_region_and_a_ring_of_width_eight() {
    let mut src = canvas(100, 100);
    paint(&mut src, 45, 45, 54, 54);
    let a = run(&src);
    assert_eq!(a.regions.len(), 1);
    assert_eq!(a.regions[0].pixel_count, 100);
    assert_eq!(a.regions[0].bounds(), ((45, 45), (54, 54)));
    assert!(!a.statuses[0].is_problem);
    assert!(a.statuses[0].margin_ok);
    assert_eq!(a.report.total_labels, 1);
    assert!(a.report.entries.is_empty());
    for y in 0..100u32 {
        for x in 0..100u32 {
            let got = a.output.get(x, y);
            if within(x, y, 37, 37, 62, 62) {
                assert_eq!(got, CYAN, "pixel ({x}, {y}) lies within 8 of the square");
            } else {
                assert_eq!(got, CLEAR, "pixel ({x}, {y}) lies outside the margin");
            }
        }
    }
    assert_eq!(count_colour(&a, CYAN), 26 * 26);
    assert_eq!(count_colour(&a, RED), 0);
    assert_eq!(count_colour(&a, VIOLET), 0);
}

#[test]
fn island_pixels_lie_in_their_own_margin_and_are_never_green() {
    let mut src = canvas(100, 100);
    paint(&mut src, 45, 45, 54, 54);
    let a = run(&src);
    for y in 45..=54u32 {
        for x in 45..=54u32 {
            assert_ne!(a.labels.get(x, y), 0);
            assert_eq!(a.margin.get(x, y), 255);
            assert_eq!(a.output.get(x, y), CYAN);
        }
    }
    assert_eq!(count_colour(&a, GREEN), 0);
}

#[test]
fn two_squares_four_pixels_apart_conflict() {
    let mut src = canvas(100, 100);
    // columns 30..=39 and 44..=53: four clear columns 40..=43 between them
    paint(&mut src, 30, 45, 39, 54);
    paint(&mut src, 44, 45, 53, 54);
    let a = run(&src);
    assert_eq!(a.regions.len(), 2);
    assert!(!a.statuses[0].margin_ok);
    assert!(!a.statuses[1].margin_ok);
    assert!(!a.statuses[0].is_problem);
    assert!(!a.statuses[1].is_problem);
    assert_eq!(a.report.total_labels, 2);
    assert_eq!(a.report.flagged(), 2);
    for entry in a.report.entries.iter() {
        assert_eq!(entry.pixel_count, 100);
        assert_eq!(entry.density_percent, 100);
        assert_eq!(entry.bbox_width, 10);
        assert_eq!(entry.bbox_height, 10);
        assert!(!entry.margin_ok);
    }
    // the two dilated masks are columns 22..=47 and 36..=61 of rows 37..=62
    for y in 0..100u32 {
        for x in 0..100u32 {
            let in_first = within(x, y, 22, 37, 47, 62);
            let in_second = within(x, y, 36, 37, 61, 62);
            let expected = if in_first && in_second {
                RED
            } else if in_first || in_second {
                CYAN
            } else {
                CLEAR
            };
            assert_eq!(a.output.get(x, y), expected, "pixel ({x}, {y})");
            assert_eq!(a.conflict.get(x, y), if in_first && in_second { 255 } else { 0 });
            assert_eq!(a.margin.get(x, y), if in_first || in_second { 255 } else { 0 });
        }
    }
    // island pixels inside the overlap are red too
    assert_eq!(a.output.get(38, 50), RED);
    assert_eq!(a.output.get(45, 50), RED);
    // the gap between the squares is unoccupied and in conflict
    assert_eq!(a.labels.get(41, 50), 0);
    assert_eq!(a.output.get(41, 50), RED);
}

#[test]
fn square_touching_the_left_edge_paints_the_border_violet() {
    let mut src = canvas(100, 100);
    paint(&mut src, 0, 45, 9, 54);
    let a = run(&src);
    assert_eq!(a.regions.len(), 1);
    assert!(a.statuses[0].margin_ok);
    for y in 0..100u32 {
        for x in 0..100u32 {
            let in_margin = within(x, y, 0, 37, 17, 62);
            let expected = if in_margin && x == 0 {
                VIOLET
            } else if in_margin {
                CYAN
            } else {
                CLEAR
            };
            assert_eq!(a.output.get(x, y), expected, "pixel ({x}, {y})");
        }
    }
    assert_eq!(count_colour(&a, VIOLET), 26);
}

#[test]
fn violet_overrides_red_on_the_border() {
    let mut src = canvas(60, 60);
    // two squares at the left edge, two rows apart: their margins overlap on column 0
    paint(&mut src, 0, 10, 4, 19);
    paint(&mut src, 0, 22, 4, 31);
    let a = run(&src);
    assert_eq!(a.regions.len(), 2);
    assert!(!a.statuses[0].margin_ok);
    assert!(!a.statuses[1].margin_ok);
    // margins: rows 2..=27 and 14..=39, columns 0..=12
    for y in 14..=27u32 {
        assert_eq!(a.conflict.get(0, y), 255);
        assert_eq!(a.output.get(0, y), VIOLET, "border pixel (0, {y})");
        assert_eq!(a.output.get(1, y), RED, "inner pixel (1, {y})");
    }
    assert_eq!(a.output.get(0, 5), VIOLET);
    assert_eq!(a.output.get(1, 5), CYAN);
    assert_eq!(a.output.get(0, 1), CLEAR);
}

#[test]
fn ring_shape_is_flagged_as_a_problem() {
    let mut src = canvas(100, 100);
    // a ring one pixel thick around a 20 by 20 box: 76 pixels in a box of 400
    paint(&mut src, 40, 40, 59, 40);
    paint(&mut src, 40, 59, 59, 59);
    paint(&mut src, 40, 40, 40, 59);
    paint(&mut src, 59, 40, 59, 59);
    let a = run(&src);
    assert_eq!(a.regions.len(), 1);
    assert_eq!(a.regions[0].pixel_count, 76);
    assert_eq!(a.regions[0].bounds(), ((40, 40), (59, 59)));
    assert!(a.statuses[0].is_problem);
    assert!(a.statuses[0].margin_ok);
    assert_eq!(a.report.total_labels, 1);
    assert_eq!(a.report.flagged(), 1);
    let entry = a.report.entries[0];
    assert_eq!(entry.pixel_count, 76);
    assert_eq!(entry.density_percent, 19);
    assert_eq!(entry.bbox_width, 20);
    assert_eq!(entry.bbox_height, 20);
    assert!(entry.margin_ok);
}

#[test]
fn ring_shape_is_flagged_whatever_its_margin_status() {
    let mut src = canvas(100, 100);
    paint(&mut src, 40, 40, 59, 40);
    paint(&mut src, 40, 59, 59, 59);
    paint(&mut src, 40, 40, 40, 59);
    paint(&mut src, 59, 40, 59, 59);
    // a second island inside the hole, close to the ring
    paint(&mut src, 48, 48, 51, 51);
    let a = run(&src);
    assert_eq!(a.regions.len(), 2);
    assert!(a.statuses[0].is_problem);
    assert!(!a.statuses[0].margin_ok);
    assert!(!a.statuses[1].is_problem);
    assert!(!a.statuses[1].margin_ok);
    assert_eq!(a.report.flagged(), 2);
    assert_eq!(a.report.entries[0].pixel_count, 76);
    assert_eq!(a.report.entries[1].pixel_count, 16);
}

#[test]
fn lone_opaque_pixel_raster_is_analysed() {
    let src = Raster::filled(1, 1, OPAQUE);
    let a = run(&src);
    assert_eq!(a.labels.cells, vec![1]);
    assert_eq!(a.regions.len(), 1);
    assert_eq!(a.regions[0].pixel_count, 1);
    assert_eq!(a.regions[0].bounds(), ((0, 0), (0, 0)));
    assert!(!a.statuses[0].is_problem);
    assert!(a.statuses[0].margin_ok);
    assert_eq!(a.margin.cells, vec![255]);
    assert_eq!(a.conflict.cells, vec![0]);
    assert_eq!(a.output.cells, vec![VIOLET]);
    assert!(a.report.entries.is_empty());
}

#[test]
fn empty_rasters_are_analysed() {
    for (w, h) in [(0u32, 0u32), (0, 7), (7, 0)] {
        let src = canvas(w, h);
        let a = run(&src);
        assert_eq!(a.output.width, w);
        assert_eq!(a.output.height, h);
        assert!(a.output.cells.is_empty());
        assert_eq!(a.report.total_labels, 0);
    }
}

#[test]
fn alpha_at_the_threshold_is_background() {
    let mut src = canvas(30, 30);
    src.set(10, 10, Rgba { r: 9, g: 9, b: 9, a: 128 });
    src.set(20, 20, Rgba { r: 9, g: 9, b: 9, a: 129 });
    let a = run(&src);
    assert_eq!(a.regions.len(), 1);
    assert_eq!(a.regions[0].bounds(), ((20, 20), (20, 20)));
    assert_eq!(a.labels.get(10, 10), 0);
    assert_ne!(a.labels.get(20, 20), 0);
}

#[test]
fn custom_radius_and_ratio_are_honoured() {
    let mut src = canvas(40, 40);
    paint(&mut src, 10, 10, 12, 10);
    paint(&mut src, 10, 11, 10, 12);
    // an L of 5 pixels in a 3 by 3 box
    let tight = Config { alpha_threshold: 128, margin_radius: 1, density_ratio: 3 };
    let a = analyze_uv(&src, &tight);
    assert!(!a.statuses[0].is_problem);
    // the 5 by 5 block around the box, less the four pixels of its far corner
    assert_eq!(a.margin.cells.iter().filter(|m| **m != 0).count(), 25 - 4);
    assert_eq!(a.margin.get(12, 12), 0);
    assert_eq!(a.margin.get(11, 11), 255);
    let strict = Config { alpha_threshold: 128, margin_radius: 1, density_ratio: 1 };
    let b = analyze_uv(&src, &strict);
    assert!(b.statuses[0].is_problem);
    assert_eq!(b.report.entries[0].density_percent, 55);
    let none = Config { alpha_threshold: 128, margin_radius: 0, density_ratio: 3 };
    let c = analyze_uv(&src, &none);
    assert_eq!(c.margin.cells.iter().filter(|m| **m != 0).count(), 5);
}
