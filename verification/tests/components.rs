use parser_chunker::vision::components::component_boxes;

fn mask_with_blocks(w: usize, h: usize, blocks: &[(usize, usize, usize, usize)]) -> Vec<bool> {
    let mut mask = vec![false; w * h];
    for &(x0, y0, x1, y1) in blocks {
        for y in y0..y1 {
            for x in x0..x1 {
                mask[y * w + x] = true;
            }
        }
    }
    mask
}

#[test]
fn component_boxes_single_square() {
    let mask = mask_with_blocks(32, 32, &[(4, 4, 12, 12)]);
    assert_eq!(component_boxes(&mask, 32, 32), vec![(4, 4, 11, 11)]);
}

#[test]
fn component_boxes_empty_mask() {
    let mask = vec![false; 32 * 32];
    assert!(component_boxes(&mask, 32, 32).is_empty());
}

#[test]
fn component_boxes_zero_width() {
    assert!(component_boxes(&[], 0, 5).is_empty());
}

#[test]
fn component_boxes_two_regions_in_scan_order() {
    // The right block starts on row 1 and the left one on row 5, so the right
    // one comes first.
    let mask = mask_with_blocks(10, 8, &[(6, 1, 9, 3), (0, 5, 2, 8)]);
    assert_eq!(component_boxes(&mask, 10, 8), vec![(6, 1, 8, 2), (0, 5, 1, 7)]);
}

#[test]
fn component_boxes_diagonal_pixels_are_separate() {
    // 4-connectivity: pixels that touch only at a corner form two regions.
    let mut mask = vec![false; 3 * 3];
    mask[0] = true; // (0, 0)
    mask[4] = true; // (1, 1)
    assert_eq!(component_boxes(&mask, 3, 3), vec![(0, 0, 0, 0), (1, 1, 1, 1)]);
}

#[test]
fn component_boxes_u_shape_is_one_region() {
    // A U shape whose arms are first reached separately in scan order.
    let w = 5;
    let h = 4;
    let mut mask = vec![false; w * h];
    for y in 0..4 {
        mask[y * w] = true;
        mask[y * w + 4] = true;
    }
    for x in 0..5 {
        mask[3 * w + x] = true;
    }
    assert_eq!(component_boxes(&mask, w, h), vec![(0, 0, 4, 3)]);
}
