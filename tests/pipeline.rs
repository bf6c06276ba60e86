use mollweide_map::calibration::{calibrate, CalibrationBounds, CalibrationError};
use mollweide_map::cluster::{components, find_principal_cluster, principal_index, ClusterError};
use mollweide_map::extremes::{extreme_point, extremes, Direction};
use mollweide_map::geometry::PixelCoord;
use mollweide_map::raster::{classify, BoundaryMask, ClassifyError, Rgb, RgbRaster};

const WHITE: Rgb = Rgb { r: 255, g: 255, b: 255 };
const DARK: Rgb = Rgb { r: 10, g: 40, b: 90 };

fn px(x: usize, y: usize) -> PixelCoord {
    PixelCoord::new(x, y)
}

fn raster(width: usize, height: usize, dark: &[(usize, usize)]) -> RgbRaster {
    let mut rows = vec![vec![WHITE; width]; height];
    for &(x, y) in dark {
        rows[y][x] = DARK;
    }
    RgbRaster::from_rows(rows).unwrap()
}

fn mask(width: usize, height: usize, on: &[(usize, usize)]) -> BoundaryMask {
    let mut rows = vec![vec![false; width]; height];
    for &(x, y) in on {
        rows[y][x] = true;
    }
    BoundaryMask::from_rows(rows).unwrap()
}

fn sorted(c: &[PixelCoord]) -> Vec<(usize, usize)> {
    let mut v: Vec<(usize, usize)> = c.iter().map(|p| (p.x, p.y)).collect();
    v.sort();
    v
}

#[test]
fn five_by_five_blob_is_principal_cluster() {
    let blob = [(0, 0), (1, 0), (1, 1), (1, 2), (2, 2), (3, 2)];
    let mut on = blob.to_vec();
    on.push((4, 4));
    let m = mask(5, 5, &on);
    let c = find_principal_cluster(&m).unwrap();
    let mut expected = blob.to_vec();
    expected.sort();
    assert_eq!(sorted(&c), expected);

    let all = components(&m);
    assert_eq!(all.len(), 2);
    let mut sizes: Vec<usize> = all.iter().map(|c| c.len()).collect();
    sizes.sort();
    assert_eq!(sizes, vec![1, 6]);
}

#[test]
fn diagonal_pixels_are_separate_components() {
    let m = mask(3, 3, &[(0, 0), (1, 1), (2, 2)]);
    let all = components(&m);
    assert_eq!(all.len(), 3);
    assert!(all.iter().all(|c| c.len() == 1));
}

#[test]
fn components_come_in_scan_order() {
    let m = mask(4, 3, &[(3, 0), (0, 2), (1, 2)]);
    let all = components(&m);
    assert_eq!(all.len(), 2);
    assert_eq!(all[0][0], px(3, 0));
    assert_eq!(sorted(&all[1]), vec![(0, 2), (1, 2)]);
}

#[test]
fn principal_index_prefers_first_of_equal_sizes() {
    let comps = vec![vec![px(0, 0)], vec![px(2, 0), px(3, 0)], vec![px(0, 2), px(1, 2)]];
    assert_eq!(principal_index(&comps), Some(1));
    assert_eq!(principal_index(&Vec::new()), None);
}

#[test]
fn principal_cluster_tie_takes_first_scanned() {
    let m = mask(5, 3, &[(0, 0), (1, 0), (3, 2), (4, 2)]);
    let c = find_principal_cluster(&m).unwrap();
    assert_eq!(sorted(&c), vec![(0, 0), (1, 0)]);
}

#[test]
fn west_takes_middle_of_three_ties() {
    let cluster = vec![px(2, 0), px(2, 1), px(2, 2), px(3, 0), px(4, 1)];
    let e = extremes(&cluster);
    assert_eq!(e.west, px(2, 1));
    assert_eq!(e.east, px(4, 1));
    assert_eq!(e.north, px(3, 0));
    assert_eq!(e.south, px(2, 2));
}

#[test]
fn earlier_ties_are_dropped_when_a_better_extreme_appears() {
    let cluster = vec![px(5, 0), px(5, 1), px(3, 3), px(3, 4)];
    assert_eq!(extreme_point(&cluster, Direction::West), px(3, 4));
    assert_eq!(extreme_point(&cluster, Direction::East), px(5, 1));
    assert_eq!(extreme_point(&cluster, Direction::North), px(5, 0));
    assert_eq!(extreme_point(&cluster, Direction::South), px(3, 4));
}

#[test]
fn single_pixel_cluster_is_its_own_extreme() {
    let cluster = vec![px(7, 9)];
    let e = extremes(&cluster);
    assert_eq!(e.west, px(7, 9));
    assert_eq!(e.east, px(7, 9));
    assert_eq!(e.north, px(7, 9));
    assert_eq!(e.south, px(7, 9));
}

#[test]
fn diagonal_background_contact_is_boundary() {
    // Everything dark except the top-left corner; (1, 1) touches it only diagonally.
    let mut dark = Vec::new();
    for y in 0..4 {
        for x in 0..4 {
            if (x, y) != (0, 0) {
                dark.push((x, y));
            }
        }
    }
    let img = raster(4, 4, &dark);
    let m = classify(&img).unwrap();
    assert!(m.rows[1][1]);
    // (2, 2) has a fully dark neighbourhood.
    assert!(!m.rows[2][2]);
    assert!(!m.rows[0][0]);
}

#[test]
fn image_border_does_not_count_as_background() {
    let img = raster(2, 2, &[(0, 0), (1, 0), (0, 1), (1, 1)]);
    let m = classify(&img).unwrap();
    assert!(m.rows.iter().all(|r| r.iter().all(|b| !*b)));
}

#[test]
fn blank_image_has_no_boundary() {
    let img = raster(6, 4, &[]);
    let m = classify(&img).unwrap();
    assert_eq!(m.width, 6);
    assert_eq!(m.height, 4);
    assert!(m.rows.iter().all(|r| r.len() == 6 && r.iter().all(|b| !*b)));
    assert_eq!(find_principal_cluster(&m), Err(ClusterError::NoBoundaryFound));
}

#[test]
fn threshold_is_strictly_above_230() {
    let mut rows = vec![vec![WHITE; 3]; 1];
    rows[0][1] = Rgb { r: 230, g: 255, b: 255 };
    let img = RgbRaster::from_rows(rows).unwrap();
    let m = classify(&img).unwrap();
    assert_eq!(m.rows[0], vec![false, true, false]);
}

#[test]
fn empty_image_is_rejected() {
    let img = RgbRaster::from_rows(Vec::new()).unwrap();
    assert!(matches!(classify(&img), Err(ClassifyError::EmptyImage)));
    let img = RgbRaster::from_rows(vec![Vec::new(), Vec::new()]).unwrap();
    assert!(matches!(classify(&img), Err(ClassifyError::EmptyImage)));
    assert_eq!(calibrate(&img), Err(CalibrationError::EmptyImage));
}

#[test]
fn ragged_rows_are_rejected() {
    assert!(RgbRaster::from_rows(vec![vec![WHITE; 2], vec![WHITE; 3]]).is_none());
    assert!(BoundaryMask::from_rows(vec![vec![true], vec![]]).is_none());
}

#[test]
fn calibrate_reads_rectangle_extent() {
    let mut dark = Vec::new();
    for y in 1..=6 {
        for x in 2..=8 {
            dark.push((x, y));
        }
    }
    // A stray speck that forms a smaller cluster of its own.
    dark.push((11, 9));
    let img = raster(12, 10, &dark);
    let b = calibrate(&img).unwrap();
    assert_eq!(b, CalibrationBounds { left: 2, right: 8, top: 1, bottom: 6 });
}

#[test]
fn calibrate_rejects_single_point() {
    let img = raster(5, 5, &[(2, 2)]);
    assert_eq!(calibrate(&img), Err(CalibrationError::DegenerateBounds));
}

#[test]
fn calibrate_reports_missing_boundary() {
    let img = raster(5, 5, &[]);
    assert_eq!(calibrate(&img), Err(CalibrationError::NoBoundaryFound));
}

#[test]
fn bounds_need_width_and_height() {
    assert_eq!(
        CalibrationBounds::new(44, 1336, 5, 653),
        Ok(CalibrationBounds { left: 44, right: 1336, top: 5, bottom: 653 })
    );
    assert_eq!(CalibrationBounds::new(10, 10, 0, 5), Err(CalibrationError::DegenerateBounds));
    assert_eq!(CalibrationBounds::new(0, 5, 7, 3), Err(CalibrationError::DegenerateBounds));
}

#[test]
fn mask_get_is_false_outside() {
    let m = mask(2, 2, &[(1, 1)]);
    assert!(m.get(px(1, 1)));
    assert!(!m.get(px(0, 1)));
    assert!(!m.get(px(5, 1)));
}
