use uv_margin::colour::{classify_pixel, Rgba as Pixel};
use uv_margin::compose::compose;
use uv_margin::dilation::{build_mask, dilate};
use uv_margin::foreground::extract_foreground;
use uv_margin::geometry::min_distance_bounds;
use uv_margin::labelling::label_regions;
use uv_margin::overlap::{masks_overlap, overlay_masks};
use uv_margin::raster::Raster as Grid;
use uv_margin::regions::{collect_regions, Region};
use uv_margin::report::{build_report, RegionStatus, ReportEntry};

fn grid<T: Copy>(width: u32, rows: &[&[T]]) -> Grid<T> {
    let mut cells = Vec::new();
    for row in rows {
        assert_eq!(row.len(), width as usize);
        cells.extend_from_slice(row);
    }
    Grid::from_cells(width, rows.len() as u32, cells).unwrap()
}

#[test]
fn from_cells_checks_the_length() {
    assert!(Grid::from_cells(3, 2, vec![0u8; 6]).is_some());
    assert!(Grid::from_cells(3, 2, vec![0u8; 5]).is_none());
    assert!(Grid::from_cells(3, 2, vec![0u8; 7]).is_none());
    assert!(Grid::from_cells(0, 5, Vec::<u8>::new()).is_some());
}

#[test]
fn rasters_are_stored_row_by_row() {
    let mut g = Grid::filled(3, 2, 0u8);
    g.set(2, 0, 7);
    g.set(0, 1, 9);
    assert_eq!(g.cells, vec![0, 0, 7, 9, 0, 0]);
    assert_eq!(g.get(2, 0), 7);
    assert_eq!(g.get(0, 1), 9);
    assert_eq!(g.index_of(1, 1), 4);
}

#[test]
fn foreground_is_alpha_above_threshold() {
    let px = |a: u8| Pixel { r: 1, g: 2, b: 3, a };
    let src = grid(4, &[&[px(0), px(127), px(128), px(129)], &[px(255), px(1), px(200), px(128)]]);
    let occ = extract_foreground(&src, 128);
    assert_eq!(occ.width, 4);
    assert_eq!(occ.height, 2);
    assert_eq!(occ.cells, vec![0, 0, 0, 255, 255, 0, 255, 0]);
    let all = extract_foreground(&src, 0);
    assert_eq!(all.cells, vec![0, 255, 255, 255, 255, 255, 255, 255]);
    let none = extract_foreground(&src, 255);
    assert_eq!(none.cells, vec![0; 8]);
}

#[test]
fn labelling_joins_diagonal_neighbours() {
    let occ = grid(
        5,
        &[
            &[255u8, 0, 0, 0, 255],
            &[0, 255, 0, 0, 255],
            &[0, 0, 0, 0, 0],
            &[255, 0, 0, 255, 0],
        ],
    );
    let labels = label_regions(&occ);
    assert_eq!(labels.width, 5);
    assert_eq!(labels.height, 4);
    let at = |x: u32, y: u32| labels.get(x, y);
    // background is 0, foreground is not
    for (i, cell) in occ.cells.iter().enumerate() {
        assert_eq!(labels.cells[i] == 0, *cell == 0);
    }
    // (0,0) and (1,1) touch at a corner
    assert_eq!(at(0, 0), at(1, 1));
    assert_eq!(at(4, 0), at(4, 1));
    let distinct = [at(0, 0), at(4, 0), at(0, 3), at(3, 3)];
    for i in 0..4 {
        for j in 0..4 {
            if i != j {
                assert_ne!(distinct[i], distinct[j]);
            }
        }
    }
}

#[test]
fn labelling_follows_a_winding_chain() {
    // a U shape: its two arms meet only through the bottom row
    let occ = grid(
        5,
        &[
            &[255u8, 0, 0, 0, 255],
            &[255, 0, 0, 0, 255],
            &[255, 0, 0, 0, 255],
            &[255, 255, 255, 255, 255],
        ],
    );
    let labels = label_regions(&occ);
    let first = labels.get(0, 0);
    assert_ne!(first, 0);
    for (i, cell) in occ.cells.iter().enumerate() {
        assert_eq!(labels.cells[i], if *cell == 0 { 0 } else { first });
    }
}

#[test]
fn labelling_a_lone_pixel() {
    let occ = Grid::filled(1, 1, 255u8);
    assert_eq!(label_regions(&occ).cells, vec![1]);
    let blank = Grid::filled(1, 1, 0u8);
    assert_eq!(label_regions(&blank).cells, vec![0]);
}

#[test]
fn regions_come_in_order_of_first_appearance() {
    let labels = grid(
        5,
        &[&[0u32, 7, 7, 0, 3], &[0, 7, 0, 0, 3], &[9, 0, 0, 3, 3], &[9, 9, 0, 0, 7]],
    );
    let regions = collect_regions(&labels);
    assert_eq!(
        regions,
        vec![
            Region { label: 7, min_x: 1, min_y: 0, max_x: 4, max_y: 3, pixel_count: 4 },
            Region { label: 3, min_x: 3, min_y: 0, max_x: 4, max_y: 2, pixel_count: 4 },
            Region { label: 9, min_x: 0, min_y: 2, max_x: 1, max_y: 3, pixel_count: 3 },
        ]
    );
    assert!(collect_regions(&Grid::filled(4, 4, 0u32)).is_empty());
}

#[test]
fn bounding_box_measures_and_density() {
    let r = Region { label: 1, min_x: 2, min_y: 5, max_x: 4, max_y: 5, pixel_count: 2 };
    assert_eq!(r.bounds(), ((2, 5), (4, 5)));
    assert_eq!(r.bbox_width(), 3);
    assert_eq!(r.bbox_height(), 1);
    assert_eq!(r.bbox_area(), 3);
    assert_eq!(r.density_percent(), 66);
    assert!(!r.is_sparse(3));
    let sparse = Region { label: 1, min_x: 0, min_y: 0, max_x: 2, max_y: 2, pixel_count: 2 };
    assert_eq!(sparse.bbox_area(), 9);
    assert!(sparse.is_sparse(3)); // 6 < 9
    assert_eq!(sparse.density_percent(), 22);
    let third = Region { label: 1, min_x: 0, min_y: 0, max_x: 2, max_y: 2, pixel_count: 3 };
    assert!(!third.is_sparse(3)); // 9 < 9 fails
    assert_eq!(third.density_percent(), 33);
    // a reversed box counts as one pixel wide, and the widest box does not overflow
    let reversed = Region { label: 1, min_x: 9, min_y: 9, max_x: 3, max_y: 3, pixel_count: 1 };
    assert_eq!(reversed.bbox_width(), 1);
    assert_eq!(reversed.bbox_area(), 1);
    let widest = Region {
        label: 1,
        min_x: 0,
        min_y: 0,
        max_x: u32::MAX,
        max_y: u32::MAX,
        pixel_count: u32::MAX,
    };
    assert_eq!(widest.bbox_width(), 1u64 << 32);
    assert_eq!(widest.bbox_area(), 1u128 << 64);
    assert!(widest.is_sparse(3));
    assert_eq!(widest.density_percent(), 0);
}

#[test]
fn mask_marks_exactly_one_label() {
    let labels = grid(3, &[&[0u32, 2, 2], &[5, 0, 2]]);
    assert_eq!(build_mask(&labels, 2).cells, vec![0, 255, 255, 0, 0, 255]);
    assert_eq!(build_mask(&labels, 5).cells, vec![0, 0, 0, 255, 0, 0]);
    assert_eq!(build_mask(&labels, 8).cells, vec![0; 6]);
}

#[test]
fn dilation_grows_a_pixel_into_a_square() {
    let mut mask = Grid::filled(7, 7, 0u8);
    mask.set(3, 3, 255);
    let one = dilate(&mask, 1);
    let two = dilate(&mask, 2);
    for y in 0..7u32 {
        for x in 0..7u32 {
            let d = (x as i64 - 3).abs().max((y as i64 - 3).abs());
            assert_eq!(one.get(x, y), if d <= 1 { 255 } else { 0 });
            assert_eq!(two.get(x, y), if d <= 2 { 255 } else { 0 });
        }
    }
    assert_ne!(one, mask);
    assert_eq!(dilate(&mask, 0), mask);
    assert_eq!(dilate(&mask, 254).cells, vec![255; 49]);
}

#[test]
fn dilation_does_not_wrap_around_the_edges() {
    let mut mask = Grid::filled(6, 4, 0u8);
    mask.set(0, 1, 1); // any non-zero value is foreground
    let out = dilate(&mask, 1);
    assert_eq!(
        out.cells,
        vec![
            255, 255, 0, 0, 0, 0, //
            255, 255, 0, 0, 0, 0, //
            255, 255, 0, 0, 0, 0, //
            0, 0, 0, 0, 0, 0,
        ]
    );
}

#[test]
fn dilation_of_an_empty_mask_is_empty() {
    // on a raster this small the distance cap of the outside routine is below the radius
    let mask = Grid::filled(3, 3, 0u8);
    assert_eq!(dilate(&mask, 8).cells, vec![0; 9]);
    let none = Grid::filled(0, 0, 0u8);
    assert!(dilate(&none, 8).cells.is_empty());
}

#[test]
fn overlay_gives_union_and_pairwise_intersections() {
    let a = grid(4, &[&[255u8, 255, 0, 0]]);
    let b = grid(4, &[&[0u8, 255, 255, 0]]);
    let c = grid(4, &[&[0u8, 255, 0, 0]]);
    let (margin, conflict) = overlay_masks(&vec![a.clone(), b.clone(), c.clone()], 4, 1);
    assert_eq!(margin.cells, vec![255, 255, 255, 0]);
    assert_eq!(conflict.cells, vec![0, 255, 0, 0]);
    let (margin, conflict) = overlay_masks(&vec![a.clone()], 4, 1);
    assert_eq!(margin.cells, vec![255, 255, 0, 0]);
    assert_eq!(conflict.cells, vec![0; 4]);
    let (margin, conflict) = overlay_masks(&Vec::new(), 4, 1);
    assert_eq!(margin.cells, vec![0; 4]);
    assert_eq!(conflict.cells, vec![0; 4]);
    assert!(masks_overlap(&a, &b));
    assert!(!masks_overlap(&a, &grid(4, &[&[0u8, 0, 255, 255]])));
}

#[test]
fn colour_rules_in_order() {
    let violet = Pixel { r: 128, g: 0, b: 128, a: 255 };
    let red = Pixel { r: 255, g: 0, b: 0, a: 255 };
    let cyan = Pixel { r: 0, g: 255, b: 255, a: 255 };
    let green = Pixel { r: 0, g: 255, b: 0, a: 255 };
    let clear = Pixel { r: 0, g: 0, b: 0, a: 0 };
    for island in [false, true] {
        for conflict in [false, true] {
            assert_eq!(classify_pixel(true, island, true, conflict), violet);
        }
        assert_eq!(classify_pixel(false, island, true, true), red);
        assert_eq!(classify_pixel(false, island, false, true), red);
        assert_eq!(classify_pixel(true, island, false, true), red);
        assert_eq!(classify_pixel(false, island, true, false), cyan);
    }
    assert_eq!(classify_pixel(false, false, false, false), clear);
    assert_eq!(classify_pixel(true, false, false, false), clear);
    assert_eq!(classify_pixel(false, true, false, false), green);
    assert_eq!(classify_pixel(true, true, false, false), green);
}

#[test]
fn composition_paints_each_pixel_by_the_rules() {
    let labels = grid(3, &[&[0u32, 0, 0], &[0, 4, 0], &[0, 0, 0], &[0, 0, 0]]);
    let margin = grid(3, &[&[0u8, 255, 0], &[0, 255, 0], &[255, 255, 0], &[0, 0, 0]]);
    let conflict = grid(3, &[&[0u8, 0, 0], &[0, 0, 0], &[0, 255, 0], &[0, 0, 0]]);
    let out = compose(&labels, &margin, &conflict);
    let violet = Pixel { r: 128, g: 0, b: 128, a: 255 };
    let red = Pixel { r: 255, g: 0, b: 0, a: 255 };
    let cyan = Pixel { r: 0, g: 255, b: 255, a: 255 };
    let clear = Pixel { r: 0, g: 0, b: 0, a: 0 };
    assert_eq!(
        out.cells,
        vec![
            clear, violet, clear, //
            clear, cyan, clear, //
            violet, red, clear, //
            clear, clear, clear,
        ]
    );
    // without any margin an island pixel is green
    let bare = compose(&labels, &Grid::filled(3, 4, 0u8), &Grid::filled(3, 4, 0u8));
    assert_eq!(bare.get(1, 1), Pixel { r: 0, g: 255, b: 0, a: 255 });
}

#[test]
fn report_lists_flagged_regions_only() {
    let regions = vec![
        Region { label: 1, min_x: 0, min_y: 0, max_x: 9, max_y: 9, pixel_count: 100 },
        Region { label: 2, min_x: 0, min_y: 0, max_x: 9, max_y: 4, pixel_count: 10 },
        Region { label: 3, min_x: 5, min_y: 5, max_x: 6, max_y: 7, pixel_count: 5 },
        Region { label: 4, min_x: 1, min_y: 1, max_x: 1, max_y: 1, pixel_count: 1 },
    ];
    let statuses = vec![
        RegionStatus { is_problem: false, margin_ok: true },
        RegionStatus { is_problem: true, margin_ok: true },
        RegionStatus { is_problem: false, margin_ok: false },
        RegionStatus { is_problem: true, margin_ok: false },
    ];
    let report = build_report(&regions, &statuses);
    assert_eq!(report.total_labels, 4);
    assert_eq!(report.flagged(), 3);
    assert_eq!(
        report.entries,
        vec![
            ReportEntry {
                pixel_count: 10,
                density_percent: 20,
                bbox_width: 10,
                bbox_height: 5,
                margin_ok: true
            },
            ReportEntry {
                pixel_count: 5,
                density_percent: 83,
                bbox_width: 2,
                bbox_height: 3,
                margin_ok: false
            },
            ReportEntry {
                pixel_count: 1,
                density_percent: 100,
                bbox_width: 1,
                bbox_height: 1,
                margin_ok: false
            },
        ]
    );
    let empty = build_report(&Vec::new(), &Vec::new());
    assert_eq!(empty.total_labels, 0);
    assert_eq!(empty.flagged(), 0);
}

#[test]
fn box_separation_is_the_smaller_axis_gap() {
    let a = ((10, 10), (20, 20));
    assert_eq!(min_distance_bounds(a, ((25, 40), (30, 50))), 5);
    assert_eq!(min_distance_bounds(a, ((40, 23), (50, 30))), 3);
    assert_eq!(min_distance_bounds(((25, 40), (30, 50)), a), 5);
    // overlapping extents on one axis give zero, however far apart on the other
    assert_eq!(min_distance_bounds(a, ((15, 90), (18, 95))), 0);
    assert_eq!(min_distance_bounds(a, a), 0);
    // touching extents count as overlapping
    assert_eq!(min_distance_bounds(a, ((20, 20), (30, 30))), 0);
    assert_eq!(min_distance_bounds(a, ((21, 21), (30, 30))), 1);
    assert_eq!(min_distance_bounds(((0, 0), (0, 0)), ((u32::MAX, u32::MAX), (u32::MAX, u32::MAX))), u32::MAX);
}
