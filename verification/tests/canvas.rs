use breakwater::FrameBuffer;

#[test]
fn fresh_canvas_is_black() {
    let fb = FrameBuffer::new(1920, 1080);
    assert_eq!(fb.get_width(), 1920);
    assert_eq!(fb.get_height(), 1080);
    assert_eq!(fb.get_size(), 1920 * 1080);
    assert_eq!(fb.get(0, 0), Some(0));
    assert_eq!(fb.get(1919, 1079), Some(0));
}

#[test]
fn get_out_of_bounds_is_none() {
    let fb = FrameBuffer::new(640, 480);
    assert_eq!(fb.get(640, 0), None);
    assert_eq!(fb.get(0, 480), None);
    assert_eq!(fb.get(9999, 9999), None);
}

#[test]
fn set_stores_and_reads_back() {
    let mut fb = FrameBuffer::new(640, 480);
    fb.set(10, 20, 0x00efcdab);
    assert_eq!(fb.get(10, 20), Some(0x00efcdab));
    assert_eq!(fb.get(20, 10), Some(0));
}

#[test]
fn set_out_of_bounds_is_dropped() {
    let mut fb = FrameBuffer::new(640, 480);
    fb.set(640, 0, 0xffffff);
    fb.set(0, 480, 0xffffff);
    for x in 0..640 {
        assert_eq!(fb.get(x, 479), Some(0));
    }
}

#[test]
fn buffer_is_row_major() {
    let mut fb = FrameBuffer::new(4, 3);
    fb.set(1, 2, 7);
    let buffer = fb.get_buffer();
    assert_eq!(buffer.len(), 12);
    assert_eq!(buffer[2 * 4 + 1], 7);
}

#[test]
fn bytes_snapshot_is_red_green_blue_unused() {
    let mut fb = FrameBuffer::new(2, 1);
    // red ab, green cd, blue ef is stored as 0x00efcdab
    fb.set(0, 0, 0x00efcdab);
    let bytes = fb.as_bytes();
    assert_eq!(bytes.len(), 8);
    assert_eq!(&bytes[0..4], &[0xab, 0xcd, 0xef, 0x00]);
    assert_eq!(&bytes[4..8], &[0, 0, 0, 0]);
}
