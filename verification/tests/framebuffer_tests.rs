use fbcon::framebuffer::{FbError, FramebufferDevice};

fn cell(fb: &FramebufferDevice, x: usize, y: usize) -> u32 {
    fb.read_cell(x, y).unwrap()
}

#[test]
fn construction_refused_zero_dimension() {
    assert!(matches!(FramebufferDevice::new(0, 10, 40), Err(FbError::ZeroDimension)));
    assert!(matches!(FramebufferDevice::new(10, 0, 40), Err(FbError::ZeroDimension)));
}

#[test]
fn construction_refused_misaligned_stride() {
    assert!(matches!(FramebufferDevice::new(4, 4, 18), Err(FbError::MisalignedStride)));
}

#[test]
fn construction_refused_short_stride() {
    assert!(matches!(FramebufferDevice::new(8, 4, 16), Err(FbError::StrideTooSmall)));
}

#[test]
fn construction_refused_unaddressable() {
    assert!(matches!(FramebufferDevice::new(1, usize::MAX, 8), Err(FbError::TooLarge)));
}

#[test]
fn construction_starts_black() {
    let fb = FramebufferDevice::new(4, 3, 20).unwrap();
    assert_eq!(fb.width(), 4);
    assert_eq!(fb.height(), 3);
    assert_eq!(fb.stride_pixels(), 5);
    for y in 0..3 {
        for x in 0..5 {
            assert_eq!(cell(&fb, x, y), 0);
        }
    }
    assert!(fb.read_cell(5, 0).is_none());
    assert!(fb.read_cell(0, 3).is_none());
}

#[test]
fn draw_pixel_in_bounds_lands_at_its_cell() {
    let mut fb = FramebufferDevice::new(4, 3, 20).unwrap();
    fb.draw_pixel(2, 1, 0xFF00FF);
    for y in 0..3 {
        for x in 0..5 {
            let expected = if (x, y) == (2, 1) { 0xFF00FF } else { 0 };
            assert_eq!(cell(&fb, x, y), expected);
        }
    }
}

#[test]
fn draw_pixel_out_of_bounds_is_dropped() {
    let mut fb = FramebufferDevice::new(4, 3, 20).unwrap();
    fb.draw_pixel(4, 0, 0xABCDEF); // first column beyond the visible width
    fb.draw_pixel(0, 3, 0xABCDEF); // first row beyond the visible height
    fb.draw_pixel(usize::MAX, usize::MAX, 0xABCDEF);
    for y in 0..3 {
        for x in 0..5 {
            assert_eq!(cell(&fb, x, y), 0);
        }
    }
}

#[test]
fn clear_paints_every_visible_cell_and_spares_the_padding() {
    let mut fb = FramebufferDevice::new(4, 3, 20).unwrap();
    fb.draw_pixel(1, 1, 7);
    fb.clear(0x123456);
    for y in 0..3 {
        for x in 0..4 {
            assert_eq!(cell(&fb, x, y), 0x123456);
        }
        // the padding cell of each row is untouched
        assert_eq!(cell(&fb, 4, y), 0);
    }
}

#[test]
fn fill_rect_paints_exactly_its_clipped_cells() {
    let mut fb = FramebufferDevice::new(5, 4, 24).unwrap();
    fb.fill_rect(1, 1, 2, 2, 9);
    for y in 0..4 {
        for x in 0..5 {
            let inside = (1..3).contains(&x) && (1..3).contains(&y);
            assert_eq!(cell(&fb, x, y), if inside { 9 } else { 0 });
        }
    }
    // a rectangle reaching past the edges is clipped, not an error
    fb.fill_rect(3, 2, 100, 100, 5);
    for y in 0..4 {
        for x in 0..5 {
            let first = (1..3).contains(&x) && (1..3).contains(&y);
            let second = x >= 3 && y >= 2;
            let expected = if second {
                5
            } else if first {
                9
            } else {
                0
            };
            assert_eq!(cell(&fb, x, y), expected);
        }
    }
}
