use raytracer::FrameBuffer;

#[test]
fn a_new_buffer_is_black() {
    let fb = FrameBuffer::new(8, 5);
    assert_eq!(fb.width(), 8);
    assert_eq!(fb.height(), 5);
    assert_eq!(fb.pixels().len(), 40);
    assert!(fb.pixels().iter().all(|p| *p == 0));
}

#[test]
fn pixels_are_stored_row_after_row() {
    let mut fb = FrameBuffer::new(4, 3);
    fb.set(1, 2, 0x00ab_cdef);
    assert_eq!(fb.pixels()[2 * 4 + 1], 0x00ab_cdef);
}

#[test]
fn writing_a_pixel_changes_no_other() {
    let mut fb = FrameBuffer::new(3, 3);
    for y in 0..3 {
        for x in 0..3 {
            fb.set(x, y, (y * 3 + x) as u32 + 1);
        }
    }
    fb.set(1, 1, 0x00ff_ffff);
    for (i, p) in fb.pixels().iter().enumerate() {
        if i == 4 {
            assert_eq!(*p, 0x00ff_ffff);
        } else {
            assert_eq!(*p, i as u32 + 1);
        }
    }
}

#[test]
fn an_empty_buffer_has_no_pixels() {
    let fb = FrameBuffer::new(0, 7);
    assert_eq!(fb.pixels().len(), 0);
}
