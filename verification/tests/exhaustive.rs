use uv_margin::dilation::dilate;
use uv_margin::labelling::label_regions;
use uv_margin::raster::Raster;

/// Every raster of the given shape whose cells are 0 or 255.
fn all_binary(width: u32, height: u32) -> Vec<Raster<u8>> {
    let n = (width * height) as usize;
    (0u32..(1 << n))
        .map(|bits| {
            let cells = (0..n).map(|i| if bits >> i & 1 == 1 { 255 } else { 0 }).collect();
            Raster::from_cells(width, height, cells).unwrap()
        })
        .collect()
}

/// Component numbers found by flooding from each unvisited foreground pixel.
fn flood(occ: &Raster<u8>) -> Vec<u32> {
    let (w, h) = (occ.width as i64, occ.height as i64);
    let mut component = vec![0u32; occ.cells.len()];
    let mut next = 0;
    for start in 0..occ.cells.len() {
        if occ.cells[start] == 0 || component[start] != 0 {
            continue;
        }
        next += 1;
        component[start] = next;
        let mut stack = vec![start];
        while let Some(i) = stack.pop() {
            let (x, y) = (i as i64 % w, i as i64 / w);
            for dy in -1..=1 {
                for dx in -1..=1 {
                    let (nx, ny) = (x + dx, y + dy);
                    if 0 <= nx && nx < w && 0 <= ny && ny < h {
                        let j = (ny * w + nx) as usize;
                        if occ.cells[j] != 0 && component[j] == 0 {
                            component[j] = next;
                            stack.push(j);
                        }
                    }
                }
            }
        }
    }
    component
}

const SHAPES: [(u32, u32); 9] =
    [(1, 1), (1, 2), (2, 1), (1, 5), (5, 1), (2, 2), (2, 4), (4, 2), (3, 3)];

#[test]
fn labelling_agrees_with_flood_fill_on_every_small_raster() {
    for (w, h) in SHAPES {
        for occ in all_binary(w, h) {
            let labels = label_regions(&occ);
            assert_eq!((labels.width, labels.height), (w, h));
            let expected = flood(&occ);
            for i in 0..occ.cells.len() {
                assert_eq!(labels.cells[i] == 0, occ.cells[i] == 0, "{occ:?}");
                for j in 0..occ.cells.len() {
                    if occ.cells[i] != 0 && occ.cells[j] != 0 {
                        assert_eq!(
                            labels.cells[i] == labels.cells[j],
                            expected[i] == expected[j],
                            "{occ:?}"
                        );
                    }
                }
            }
        }
    }
}

#[test]
fn dilation_agrees_with_the_distance_rule_on_every_small_raster() {
    for (w, h) in SHAPES {
        for mask in all_binary(w, h) {
            for radius in [0u8, 1, 2, 3, 8, 254] {
                let out = dilate(&mask, radius);
                assert_eq!((out.width, out.height), (w, h));
                for y in 0..h {
                    for x in 0..w {
                        let mut near = false;
                        for py in 0..h {
                            for px in 0..w {
                                let d = (x as i64 - px as i64).abs().max((y as i64 - py as i64).abs());
                                near = near || (mask.get(px, py) != 0 && d <= radius as i64);
                            }
                        }
                        assert_eq!(out.get(x, y), if near { 255 } else { 0 }, "{mask:?} by {radius}");
                    }
                }
            }
        }
    }
}

#[test]
fn labelling_and_dilation_accept_empty_rasters() {
    for (w, h) in [(0u32, 0u32), (0, 4), (4, 0)] {
        let empty = Raster::filled(w, h, 0u8);
        assert!(label_regions(&empty).cells.is_empty());
        assert!(dilate(&empty, 8).cells.is_empty());
    }
}
