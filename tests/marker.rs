use mollweide_map::marker::marker_cells;

#[test]
fn full_disc_has_81_cells_with_56_on_the_ring() {
    let cells = marker_cells(10, 10, 30, 30);
    assert_eq!(cells.len(), 81);
    assert_eq!(cells.iter().filter(|c| c.border).count(), 56);
    for c in &cells {
        let dx = c.x as i64 - 10;
        let dy = c.y as i64 - 10;
        assert!(dx * dx + dy * dy <= 25);
        assert_eq!(c.border, dx * dx + dy * dy >= 9);
    }
    assert_eq!((cells[0].x, cells[0].y), (5, 10));
    assert_eq!((cells[80].x, cells[80].y), (15, 10));
}

#[test]
fn disc_is_clipped_at_the_corner() {
    let cells = marker_cells(0, 0, 30, 30);
    assert_eq!(cells.len(), 26);
    assert!(cells.iter().any(|c| c.x == 3 && c.y == 4 && c.border));
    assert!(cells.iter().any(|c| c.x == 0 && c.y == 0 && !c.border));
}

#[test]
fn disc_outside_the_raster_is_empty() {
    assert!(marker_cells(100, 100, 20, 20).is_empty());
    assert!(marker_cells(3, 3, 0, 10).is_empty());
}
