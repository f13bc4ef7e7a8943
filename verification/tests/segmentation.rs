use panels::irrigate::{Area, Flag, Labeler, Panel};
use panels::pixel::{Pixel, PixelBuffer};
use panels::PanelError;

fn white() -> Pixel {
    Pixel::new(255, 255, 255, 255)
}

fn black() -> Pixel {
    Pixel::new(0, 0, 0, 255)
}

fn page_with_black(cells: &[(u32, u32)]) -> PixelBuffer {
    let mut buffer = PixelBuffer::new(5, 5, white());
    for &(x, y) in cells {
        buffer.set(x, y, black());
    }
    buffer
}

fn count_opaque(panel: &Panel) -> usize {
    let mut n = 0;
    for y in 0..panel.buffer.height {
        for x in 0..panel.buffer.width {
            if panel.buffer.get(x, y) != Pixel::new(0, 0, 0, 0) {
                n += 1;
            }
        }
    }
    n
}

#[test]
fn two_isolated_pixels_make_two_panels() {
    // 5x5 white page, two black pixels placed diagonally, not 4-adjacent
    let buffer = page_with_black(&[(1, 1), (3, 3)]);
    let mut labeler = Labeler::new(buffer, (0, 5, 0, 5), 10, (0, 0)).unwrap();
    let panels = labeler.run().unwrap();

    // the border (and every white cell) is frame
    assert_eq!(labeler.get_label(0, 0), Some(Flag::Flame));
    assert_eq!(labeler.get_label(4, 4), Some(Flag::Flame));
    assert_eq!(labeler.get_label(2, 2), Some(Flag::Flame));

    // exactly two canonical labels, each a 1x1 area at a black pixel
    assert_eq!(panels.len(), 2);
    assert_eq!(panels[0].area, Area { x_start: 1, x_end: 2, y_start: 1, y_end: 2 });
    assert_eq!(panels[1].area, Area { x_start: 3, x_end: 4, y_start: 3, y_end: 4 });

    // two 1x1 opaque-black panels
    for panel in &panels {
        assert_eq!(panel.buffer.width, 1);
        assert_eq!(panel.buffer.height, 1);
        assert_eq!(panel.buffer.get(0, 0), black());
    }

    // panel pixel counts sum to the number of non-frame cells
    let total: usize = panels.iter().map(count_opaque).sum();
    assert_eq!(total, 2);
}

#[test]
fn two_adjacent_pixels_make_one_panel() {
    // the same page, but the two black pixels are 4-adjacent
    let buffer = page_with_black(&[(2, 2), (2, 3)]);
    let mut labeler = Labeler::new(buffer, (0, 5, 0, 5), 10, (0, 0)).unwrap();
    let panels = labeler.run().unwrap();

    assert_eq!(panels.len(), 1);
    assert_eq!(panels[0].area, Area { x_start: 2, x_end: 3, y_start: 2, y_end: 4 });
    assert_eq!(panels[0].buffer.get(0, 0), black());
    assert_eq!(panels[0].buffer.get(0, 1), black());
    assert_eq!(count_opaque(&panels[0]), 2);
}

#[test]
fn u_shape_collapses_to_one_label() {
    // a U-shaped region: two legs labeled separately by the raster scan and
    // only joined in the bottom row
    let cells = [(1, 1), (3, 1), (1, 2), (3, 2), (1, 3), (2, 3), (3, 3)];
    let buffer = page_with_black(&cells);
    let mut labeler = Labeler::new(buffer, (0, 5, 0, 5), 10, (0, 0)).unwrap();
    let panels = labeler.run().unwrap();

    assert_eq!(panels.len(), 1);
    assert_eq!(panels[0].area, Area { x_start: 1, x_end: 4, y_start: 1, y_end: 4 });

    // every cell of the U holds the same canonical label
    let canonical = labeler.get_label(1, 1);
    for &(x, y) in &cells {
        assert_eq!(labeler.get_label(x, y), canonical);
    }

    assert_eq!(count_opaque(&panels[0]), cells.len());
}

#[test]
fn uniform_page_is_all_frame() {
    let buffer = PixelBuffer::new(4, 4, white());
    let mut labeler = Labeler::new(buffer, (0, 4, 0, 4), 1, (2, 3)).unwrap();
    let panels = labeler.run().unwrap();
    assert!(panels.is_empty());
    for y in 0..4 {
        for x in 0..4 {
            assert_eq!(labeler.get_label(x, y), Some(Flag::Flame));
        }
    }
}

#[test]
fn seed_outside_the_page_is_rejected() {
    let buffer = PixelBuffer::new(5, 5, white());
    let err = Labeler::new(buffer, (0, 5, 0, 5), 10, (9, 9)).unwrap_err();
    assert_eq!(
        err,
        PanelError::RangeError { x: 9, y: 9, x_start: 0, x_end: 5, y_start: 0, y_end: 5 }
    );
}

#[test]
fn malformed_ranges_are_rejected() {
    let buffer = PixelBuffer::new(5, 5, white());
    let err = Labeler::new(buffer, (3, 2, 0, 5), 10, (0, 0)).unwrap_err();
    assert_eq!(
        err,
        PanelError::RangeError { x: 2, y: 5, x_start: 0, x_end: 5, y_start: 0, y_end: 5 }
    );
}

#[test]
fn seed_outside_the_processing_range_fails_the_fill() {
    let buffer = PixelBuffer::new(5, 5, white());
    let mut labeler = Labeler::new(buffer, (1, 5, 1, 5), 10, (0, 0)).unwrap();
    let err = labeler.run().unwrap_err();
    assert_eq!(
        err,
        PanelError::RangeError { x: 0, y: 0, x_start: 1, x_end: 5, y_start: 1, y_end: 5 }
    );
}

#[test]
fn too_many_regions_exceed_the_capacity() {
    // a 31x31 page with isolated black pixels at every odd coordinate pair
    // holds 225 regions, more than the equivalence table can carry
    let mut buffer = PixelBuffer::new(31, 31, white());
    for y in 0..15 {
        for x in 0..15 {
            buffer.set(2 * x + 1, 2 * y + 1, black());
        }
    }
    let mut labeler = Labeler::new(buffer, (0, 31, 0, 31), 10, (0, 0)).unwrap();
    let err = labeler.run().unwrap_err();
    assert_eq!(err, PanelError::CapacityExceeded);
}

#[test]
fn get_pixel_checks_the_processing_range() {
    let buffer = page_with_black(&[(2, 2)]);
    let labeler = Labeler::new(buffer, (1, 4, 1, 4), 10, (0, 0)).unwrap();
    assert_eq!(labeler.get_pixel(2, 2), Ok(black()));
    assert_eq!(labeler.get_pixel(1, 1), Ok(white()));
    assert_eq!(
        labeler.get_pixel(0, 2),
        Err(PanelError::RangeError { x: 0, y: 2, x_start: 1, x_end: 4, y_start: 1, y_end: 4 })
    );
}

#[test]
fn output_map_paints_frame_and_regions() {
    let buffer = page_with_black(&[(1, 1), (3, 3)]);
    let mut labeler = Labeler::new(buffer, (0, 5, 0, 5), 10, (0, 0)).unwrap();
    labeler.run().unwrap();
    let map = labeler.output_map();
    assert_eq!(map.width, 5);
    assert_eq!(map.height, 5);
    // frame cells are painted red
    assert_eq!(map.get(0, 0), Pixel::new(255, 0, 0, 255));
    assert_eq!(map.get(2, 2), Pixel::new(255, 0, 0, 255));
    // region 0 wears the first palette color, region 1 the second
    assert_eq!(map.get(1, 1), Pixel::new(156, 30, 176, 255));
    assert_eq!(map.get(3, 3), Pixel::new(33, 150, 243, 255));
}

#[test]
fn an_equivalence_is_recorded_only_once() {
    // The raster scan links raw id 2 to id 1 first; when id 2 later collides
    // with id 0, the entry is already recorded and the collision is dropped,
    // so ids 0 and 1 stay separate canonical labels even though their cells
    // touch.
    let mut buffer = PixelBuffer::new(6, 5, white());
    let cells = [(1, 1), (4, 1), (1, 2), (3, 2), (4, 2), (1, 3), (2, 3), (3, 3)];
    for &(x, y) in &cells {
        buffer.set(x, y, black());
    }
    let mut labeler = Labeler::new(buffer, (0, 6, 0, 5), 10, (0, 0)).unwrap();
    let panels = labeler.run().unwrap();

    assert_eq!(panels.len(), 2);
    assert_eq!(labeler.get_label(3, 3), Some(Flag::Territory(0)));
    assert_eq!(labeler.get_label(3, 2), Some(Flag::Territory(1)));

    // the pixel counts still partition the non-frame cells
    let total: usize = panels.iter().map(count_opaque).sum();
    assert_eq!(total, cells.len());
}

#[test]
fn labels_start_at_zero_in_raster_order() {
    let buffer = page_with_black(&[(1, 1), (3, 3)]);
    let mut labeler = Labeler::new(buffer, (0, 5, 0, 5), 10, (0, 0)).unwrap();
    let panels = labeler.run().unwrap();
    assert_eq!(panels[0].label, 0);
    assert_eq!(panels[1].label, 1);
    assert_eq!(labeler.get_label(1, 1), Some(Flag::Territory(0)));
    assert_eq!(labeler.get_label(3, 3), Some(Flag::Territory(1)));
}
